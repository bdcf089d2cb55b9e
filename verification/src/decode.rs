//! Reading a whole value back from its binary form.
use crate::format::{
    count, encoding, entry_code, entry_len, fits, holds_array, holds_object, holds_scalar, in_reach,
    kind, lemma_lengths_grow, lengths, long_bytes, number_bytes, payload, payload_at, payload_end,
    payload_start, word_at, JsonValue, ARRAY_KIND, CONTAINER_CODE, FALSE_CODE, LIMIT, NULL_CODE,
    NUMBER_CODE, OBJECT_KIND, SCALAR_KIND, STRING_CODE, TRUE_CODE,
};
use crate::functions::{offset_of, read_header, read_word};
use crate::laws::{
    item_codes, item_loads, lemma_array_assembled, lemma_object_assembled, member_codes,
    member_loads,
};
use crate::layout::{
    lemma_assembled_entry, lemma_assembled_header, lemma_assembled_lengths, lemma_assembled_payload,
    lemma_word, lemma_word_in,
};
use crate::jsonpath::exception::{ErrorCode, ErrorKind};
use crate::number::{is_nan, nan, Number, NumberValue};
use crate::value::{lemma_array_view, lemma_object_view, Value};
use vstd::prelude::*;
use vstd::slice::slice_subrange;
use vstd::utf8::{
    decode_utf8, encode_utf8, encode_utf8_decode_utf8, encode_utf8_valid_utf8, valid_utf8,
};

verus! {

/// The 64-bit word that the eight bytes from `at` on hold.
pub open spec fn long_at(buf: Seq<u8>, at: int) -> int {
    word_at(buf, at) * 0x1_0000_0000 + word_at(buf, at + 4)
}

/// The number that a payload holds: nine bytes, of which the first is the
/// tag 0 of a signed integer in two's complement, the tag 1 of an unsigned
/// integer or the tag 2 of a floating-point number, which is no NaN.
pub open spec fn decoded_number(load: Seq<u8>) -> Option<NumberValue> {
    if load.len() != 9 {
        None
    } else if load[0] == 0 {
        Some(
            NumberValue::Integer(
                if long_at(load, 1) <= i64::MAX {
                    long_at(load, 1)
                } else {
                    long_at(load, 1) - 0x1_0000_0000_0000_0000
                },
            ),
        )
    } else if load[0] == 1 {
        Some(NumberValue::Integer(long_at(load, 1)))
    } else if load[0] == 2 && !is_nan(long_at(load, 1) as u64) {
        Some(NumberValue::Float(long_at(load, 1) as u64))
    } else {
        None
    }
}

/// The null, boolean, number or string that an entry of the given type code
/// and its payload hold. Null and the booleans have no payload, and the
/// payload of a string is UTF-8.
pub open spec fn decoded_scalar(code: int, load: Seq<u8>) -> Option<JsonValue> {
    if code == NULL_CODE && load.len() == 0 {
        Some(JsonValue::Null)
    } else if code == FALSE_CODE && load.len() == 0 {
        Some(JsonValue::Bool(false))
    } else if code == TRUE_CODE && load.len() == 0 {
        Some(JsonValue::Bool(true))
    } else if code == NUMBER_CODE {
        match decoded_number(load) {
            Some(n) => Some(JsonValue::Number(n)),
            None => None,
        }
    } else if code == STRING_CODE && valid_utf8(load) {
        Some(JsonValue::String(decode_utf8(load)))
    } else {
        None
    }
}

/// The buffer is a header, `total` entries and their payloads, and nothing
/// else.
pub open spec fn is_whole(buf: Seq<u8>, total: int) -> bool {
    4 + 4 * total <= buf.len() && payload_start(buf, total, total) == buf.len()
}

/// The payload of an entry that can be read is shorter than the buffer.
pub proof fn lemma_payload_shorter(buf: Seq<u8>, total: int, k: int)
    requires
        in_reach(buf, total, k),
    ensures
        payload_at(buf, total, k).len() < buf.len(),
        payload_at(buf, total, k).len() == entry_len(buf, k),
        0 <= payload_start(buf, total, k) <= payload_end(buf, total, k),
{
    lemma_lengths_grow(buf, 0, k);
}

/// The value that an entry of the given type code and its payload hold.
pub open spec fn decoded_part(code: int, load: Seq<u8>) -> Option<JsonValue>
    decreases load.len(), 2int, 0int,
{
    if code == CONTAINER_CODE {
        decoded_container(load)
    } else {
        decoded_scalar(code, load)
    }
}

/// The array or object that a buffer holds.
pub open spec fn decoded_container(buf: Seq<u8>) -> Option<JsonValue>
    decreases buf.len(), 1int, 0int,
{
    if holds_array(buf) && is_whole(buf, count(buf)) {
        match decoded_parts(buf, count(buf), 0, count(buf)) {
            Some(items) => Some(JsonValue::Array(items)),
            None => None,
        }
    } else if holds_object(buf) && is_whole(buf, 2 * count(buf)) {
        match (
            decoded_keys(buf, count(buf)),
            decoded_parts(buf, 2 * count(buf), count(buf), count(buf)),
        ) {
            (Some(keys), Some(values)) => Some(JsonValue::Object(keys.zip_with(values))),
            _ => None,
        }
    } else {
        None
    }
}

/// The values under the `n` entries from `first` on, of a buffer of `total`
/// entries.
pub open spec fn decoded_parts(buf: Seq<u8>, total: int, first: int, n: int) -> Option<
    Seq<JsonValue>,
>
    decreases buf.len(), 0int, n,
{
    if n <= 0 {
        Some(Seq::empty())
    } else if in_reach(buf, total, first + n - 1) {
        proof {
            lemma_payload_shorter(buf, total, first + n - 1);
        }
        match (
            decoded_parts(buf, total, first, n - 1),
            decoded_part(
                entry_code(buf, first + n - 1),
                payload_at(buf, total, first + n - 1),
            ),
        ) {
            (Some(before), Some(last)) => Some(before.push(last)),
            _ => None,
        }
    } else {
        None
    }
}

/// The first `n` keys of an object; every key is a string in UTF-8.
pub open spec fn decoded_keys(buf: Seq<u8>, n: int) -> Option<Seq<Seq<char>>>
    decreases n,
{
    if n <= 0 {
        Some(Seq::empty())
    } else if in_reach(buf, 2 * count(buf), n - 1) && entry_code(buf, n - 1) == STRING_CODE
        && valid_utf8(payload_at(buf, 2 * count(buf), n - 1)) {
        match decoded_keys(buf, n - 1) {
            Some(before) => Some(
                before.push(decode_utf8(payload_at(buf, 2 * count(buf), n - 1))),
            ),
            None => None,
        }
    } else {
        None
    }
}

/// The value that a buffer holds: a scalar behind a scalar header with one
/// entry, or an array or object.
pub open spec fn decoded(buf: Seq<u8>) -> Option<JsonValue> {
    if holds_scalar(buf) {
        if count(buf) == 1 && is_whole(buf, 1) {
            decoded_scalar(entry_code(buf, 0), payload_at(buf, 1, 0))
        } else {
            None
        }
    } else {
        decoded_container(buf)
    }
}

/// A long word is eight bytes, and read back behind a tag byte it is the
/// same word.
pub proof fn lemma_long(tag: u8, w: int)
    requires
        0 <= w < 0x1_0000_0000_0000_0000,
    ensures
        (seq![tag] + long_bytes(w)).len() == 9,
        (seq![tag] + long_bytes(w))[0] == tag,
        long_at(seq![tag] + long_bytes(w), 1) == w,
{
    let s = seq![tag] + long_bytes(w);
    lemma_word(w / 0x1_0000_0000);
    lemma_word(w % 0x1_0000_0000);
    assert(s.subrange(1, 5) =~= crate::format::word_bytes(w / 0x1_0000_0000));
    assert(s.subrange(5, 9) =~= crate::format::word_bytes(w % 0x1_0000_0000));
    lemma_word_in(s, 1, w / 0x1_0000_0000);
    lemma_word_in(s, 5, w % 0x1_0000_0000);
}

/// A number that was written is read back as the same number.
pub proof fn lemma_number_round_trip(n: NumberValue)
    requires
        fits(JsonValue::Number(n)),
    ensures
        decoded_number(number_bytes(n)) == Some(n),
{
    match n {
        NumberValue::Integer(v) => {
            if v < 0 {
                lemma_long(0, v + 0x1_0000_0000_0000_0000);
            } else if v <= i64::MAX {
                lemma_long(0, v);
            } else {
                lemma_long(1, v);
            }
        },
        NumberValue::Float(bits) => {
            lemma_long(2, bits as int);
        },
    }
}

/// The names of the members of an object.
pub open spec fn names(members: Seq<(Seq<char>, JsonValue)>) -> Seq<Seq<char>> {
    Seq::new(members.len(), |i: int| members[i].0)
}

/// The values of the members of an object.
pub open spec fn values(members: Seq<(Seq<char>, JsonValue)>) -> Seq<JsonValue> {
    Seq::new(members.len(), |i: int| members[i].1)
}

/// The payload of a value that was written is read back as the same value.
pub proof fn lemma_round_trip_part(v: JsonValue)
    requires
        fits(v),
    ensures
        decoded_part(crate::format::code(v), payload(v)) == Some(v),
    decreases v, 0int,
{
    match v {
        JsonValue::Null | JsonValue::Bool(_) => {},
        JsonValue::Number(n) => {
            lemma_number_round_trip(n);
        },
        JsonValue::String(s) => {
            encode_utf8_valid_utf8(s);
            encode_utf8_decode_utf8(s);
        },
        JsonValue::Array(items) => {
            let n = items.len() as int;
            let buf = payload(v);
            assert(buf == encoding(v));
            lemma_array_assembled(items);
            lemma_assembled_header(ARRAY_KIND as int, n, item_codes(items), item_loads(items));
            lemma_assembled_lengths(ARRAY_KIND as int, n, item_codes(items), item_loads(items), n);
            lemma_round_trip_items(items, n);
            assert(items.take(n) =~= items);
            assert(decoded_container(buf) == Some(v));
        },
        JsonValue::Object(members) => {
            let n = members.len() as int;
            let buf = payload(v);
            assert(buf == encoding(v));
            lemma_object_assembled(members);
            lemma_assembled_header(
                OBJECT_KIND as int,
                n,
                member_codes(members),
                member_loads(members),
            );
            lemma_assembled_lengths(
                OBJECT_KIND as int,
                n,
                member_codes(members),
                member_loads(members),
                2 * n,
            );
            lemma_round_trip_keys(members, n);
            lemma_round_trip_members(members, n);
            assert(names(members).take(n) =~= names(members));
            assert(values(members).take(n) =~= values(members));
            assert(names(members).zip_with(values(members)) =~= members);
            assert(decoded_container(buf) == Some(v));
        },
    }
}

/// One more part that can be read makes the row of parts one longer.
pub proof fn lemma_decoded_parts_step(
    buf: Seq<u8>,
    total: int,
    first: int,
    n: int,
    before: Seq<JsonValue>,
    last: JsonValue,
)
    requires
        n > 0,
        decoded_parts(buf, total, first, n - 1) == Some(before),
        in_reach(buf, total, first + n - 1),
        decoded_part(entry_code(buf, first + n - 1), payload_at(buf, total, first + n - 1))
            == Some(last),
    ensures
        decoded_parts(buf, total, first, n) == Some(before.push(last)),
{
}

/// The first `n` items of an array that was written are read back as the
/// same items.
pub proof fn lemma_round_trip_items(items: Seq<JsonValue>, n: int)
    requires
        fits(JsonValue::Array(items)),
        0 <= n <= items.len(),
    ensures
        decoded_parts(encoding(JsonValue::Array(items)), items.len() as int, 0, n) == Some(
            items.take(n),
        ),
    decreases items, n,
{
    let buf = encoding(JsonValue::Array(items));
    let total = items.len() as int;
    if n > 0 {
        lemma_round_trip_items(items, n - 1);
        lemma_round_trip_part(items[n - 1]);
        lemma_array_assembled(items);
        lemma_assembled_entry(
            ARRAY_KIND as int,
            total,
            item_codes(items),
            item_loads(items),
            n - 1,
        );
        lemma_assembled_payload(
            ARRAY_KIND as int,
            total,
            item_codes(items),
            item_loads(items),
            n - 1,
        );
        assert(items.take(n - 1).push(items[n - 1]) =~= items.take(n));
        assert(decoded_parts(buf, total, 0, n) == Some(items.take(n)));
    } else {
        assert(items.take(0) =~= Seq::<JsonValue>::empty());
    }
}

/// The first `n` values of an object that was written are read back as the
/// same values.
pub proof fn lemma_round_trip_members(members: Seq<(Seq<char>, JsonValue)>, n: int)
    requires
        fits(JsonValue::Object(members)),
        0 <= n <= members.len(),
    ensures
        decoded_parts(
            encoding(JsonValue::Object(members)),
            2 * (members.len() as int),
            members.len() as int,
            n,
        ) == Some(values(members).take(n)),
    decreases members, n,
{
    let buf = encoding(JsonValue::Object(members));
    let total = members.len() as int;
    let codes = member_codes(members);
    let loads = member_loads(members);
    if n > 0 {
        lemma_round_trip_members(members, n - 1);
        assert(fits(members[n - 1].1));
        lemma_round_trip_part(members[n - 1].1);
        lemma_object_assembled(members);
        lemma_assembled_entry(OBJECT_KIND as int, total, codes, loads, total + n - 1);
        lemma_assembled_payload(OBJECT_KIND as int, total, codes, loads, total + n - 1);
        assert(codes[total + n - 1] == crate::format::code(members[n - 1].1));
        assert(loads[total + n - 1] == payload(members[n - 1].1));
        lemma_decoded_parts_step(
            buf,
            2 * total,
            total,
            n,
            values(members).take(n - 1),
            members[n - 1].1,
        );
        assert(values(members).take(n - 1).push(members[n - 1].1) =~= values(members).take(n));
    } else {
        assert(values(members).take(0) =~= Seq::<JsonValue>::empty());
    }
}

/// The first `n` names of an object that was written are read back as the
/// same names.
pub proof fn lemma_round_trip_keys(members: Seq<(Seq<char>, JsonValue)>, n: int)
    requires
        fits(JsonValue::Object(members)),
        0 <= n <= members.len(),
    ensures
        decoded_keys(encoding(JsonValue::Object(members)), n) == Some(names(members).take(n)),
    decreases n,
{
    let buf = encoding(JsonValue::Object(members));
    let total = members.len() as int;
    if n > 0 {
        lemma_round_trip_keys(members, n - 1);
        lemma_object_assembled(members);
        lemma_assembled_header(
            OBJECT_KIND as int,
            total,
            member_codes(members),
            member_loads(members),
        );
        lemma_assembled_entry(
            OBJECT_KIND as int,
            total,
            member_codes(members),
            member_loads(members),
            n - 1,
        );
        lemma_assembled_payload(
            OBJECT_KIND as int,
            total,
            member_codes(members),
            member_loads(members),
            n - 1,
        );
        encode_utf8_valid_utf8(members[n - 1].0);
        encode_utf8_decode_utf8(members[n - 1].0);
        assert(names(members).take(n - 1).push(members[n - 1].0) =~= names(members).take(n));
    } else {
        assert(names(members).take(0) =~= Seq::<Seq<char>>::empty());
    }
}

/// What the readers find in the buffer of a null, boolean, number or
/// string: a scalar header with one entry, which has the type code of the
/// value, and the payload of the value, which fills the buffer.
pub proof fn lemma_scalar_layout(v: JsonValue)
    requires
        fits(v),
        !(v is Array),
        !(v is Object),
    ensures
        holds_scalar(encoding(v)),
        count(encoding(v)) == 1,
        is_whole(encoding(v), 1),
        entry_code(encoding(v), 0) == crate::format::code(v),
        payload_at(encoding(v), 1, 0) == payload(v),
{
    let codes = seq![crate::format::code(v)];
    let loads = seq![payload(v)];
    let buf = encoding(v);
    assert(crate::layout::rows(codes, loads, 0) =~= Seq::<u8>::empty());
    assert(crate::layout::blob(loads, 0) =~= Seq::<u8>::empty());
    assert(crate::format::entry(v) == crate::format::tagged(
        crate::format::code(v),
        payload(v).len() as int,
    ));
    assert(buf =~= crate::layout::assembled(SCALAR_KIND as int, 1, codes, loads));
    lemma_assembled_header(SCALAR_KIND as int, 1, codes, loads);
    lemma_assembled_entry(SCALAR_KIND as int, 1, codes, loads, 0);
    lemma_assembled_lengths(SCALAR_KIND as int, 1, codes, loads, 1);
    lemma_assembled_payload(SCALAR_KIND as int, 1, codes, loads, 0);
}

/// A value that was written is read back as the same value.
pub proof fn law_round_trip(v: JsonValue)
    requires
        fits(v),
    ensures
        decoded(encoding(v)) == Some(v),
{
    lemma_round_trip_part(v);
    match v {
        JsonValue::Array(_) | JsonValue::Object(_) => {
            let buf = encoding(v);
            assert(buf == payload(v));
            assert(decoded_container(buf) == Some(v));
            assert(!holds_scalar(buf));
        },
        _ => {
            lemma_scalar_layout(v);
        },
    }
}

/// The parts that were read are as many as were asked for, and each is
/// what its entry and its payload hold.
pub proof fn lemma_decoded_parts(buf: Seq<u8>, total: int, first: int, n: int, k: int)
    requires
        decoded_parts(buf, total, first, n) is Some,
        0 <= k < n,
    ensures
        decoded_parts(buf, total, first, n)->0.len() == n,
        in_reach(buf, total, first + k),
        decoded_part(entry_code(buf, first + k), payload_at(buf, total, first + k)) == Some(
            decoded_parts(buf, total, first, n)->0[k],
        ),
    decreases n,
{
    lemma_decoded_parts_len(buf, total, first, n - 1);
    if k < n - 1 {
        lemma_decoded_parts(buf, total, first, n - 1, k);
    }
}

/// The parts that were read are as many as were asked for.
pub proof fn lemma_decoded_parts_len(buf: Seq<u8>, total: int, first: int, n: int)
    requires
        0 <= n ==> decoded_parts(buf, total, first, n + 1) is Some || decoded_parts(
            buf,
            total,
            first,
            n,
        ) is Some,
    ensures
        0 <= n ==> decoded_parts(buf, total, first, n) is Some && decoded_parts(
            buf,
            total,
            first,
            n,
        )->0.len() == n,
    decreases n,
{
    if n > 0 {
        lemma_decoded_parts_len(buf, total, first, n - 1);
    }
}

/// The keys that were read are as many as were asked for, and each is the
/// text of its payload, which is UTF-8 under the entry of a string.
pub proof fn lemma_decoded_keys(buf: Seq<u8>, n: int, k: int)
    requires
        decoded_keys(buf, n) is Some,
        0 <= k < n,
    ensures
        decoded_keys(buf, n)->0.len() == n,
        in_reach(buf, 2 * count(buf), k),
        entry_code(buf, k) == STRING_CODE,
        valid_utf8(payload_at(buf, 2 * count(buf), k)),
        decoded_keys(buf, n)->0[k] == decode_utf8(payload_at(buf, 2 * count(buf), k)),
    decreases n,
{
    lemma_decoded_keys_len(buf, n - 1);
    if k < n - 1 {
        lemma_decoded_keys(buf, n - 1, k);
    }
}

/// The keys that were read are as many as were asked for.
pub proof fn lemma_decoded_keys_len(buf: Seq<u8>, n: int)
    requires
        0 <= n ==> decoded_keys(buf, n + 1) is Some || decoded_keys(buf, n) is Some,
    ensures
        0 <= n ==> decoded_keys(buf, n) is Some && decoded_keys(buf, n)->0.len() == n,
    decreases n,
{
    if n > 0 {
        lemma_decoded_keys_len(buf, n - 1);
    }
}

/// The payloads of parts that are as long as the entries of a buffer say
/// are together as long as the lengths in the entries added up.
proof fn lemma_blob_lengths(buf: Seq<u8>, loads: Seq<Seq<u8>>, n: int)
    requires
        0 <= n <= loads.len(),
        forall|k: int| 0 <= k < n ==> (#[trigger] loads[k]).len() == entry_len(buf, k),
    ensures
        crate::layout::blob(loads, n).len() == lengths(buf, n),
    decreases n,
{
    if n > 0 {
        lemma_blob_lengths(buf, loads, n - 1);
    }
}

/// A number that was read can be written, and its payload is nine bytes.
pub proof fn lemma_decoded_number_fits(load: Seq<u8>)
    requires
        decoded_number(load) is Some,
    ensures
        fits(JsonValue::Number(decoded_number(load)->0)),
        number_bytes(decoded_number(load)->0).len() == 9,
{
    let n = decoded_number(load)->0;
    match n {
        NumberValue::Integer(v) => {
            if v < 0 {
                lemma_long(0, v + 0x1_0000_0000_0000_0000);
            } else if v <= i64::MAX {
                lemma_long(0, v);
            } else {
                lemma_long(1, v);
            }
        },
        NumberValue::Float(bits) => {
            lemma_long(2, bits as int);
        },
    }
}

/// A value that was read under an entry can be written again, and its
/// payload is then as long as the payload that it was read from.
pub proof fn lemma_decoded_part_fits(code: int, load: Seq<u8>)
    requires
        decoded_part(code, load) is Some,
        load.len() < LIMIT,
    ensures
        fits(decoded_part(code, load)->0),
        payload(decoded_part(code, load)->0).len() == load.len(),
        crate::format::code(decoded_part(code, load)->0) == code,
    decreases load.len(), 2int,
{
    let v = decoded_part(code, load)->0;
    if code == CONTAINER_CODE {
        lemma_decoded_container_fits(load);
    } else if code == NUMBER_CODE {
        lemma_decoded_number_fits(load);
    } else if code == STRING_CODE {
        vstd::utf8::decode_utf8_encode_utf8(load);
    }
}

/// An array or object that was read can be written again, and its buffer is
/// then as long as the buffer that it was read from.
pub proof fn lemma_decoded_container_fits(buf: Seq<u8>)
    requires
        decoded_container(buf) is Some,
    ensures
        fits(decoded_container(buf)->0),
        payload(decoded_container(buf)->0).len() == buf.len(),
        decoded_container(buf)->0 is Array || decoded_container(buf)->0 is Object,
    decreases buf.len(), 1int,
{
    let v = decoded_container(buf)->0;
    let n = count(buf);
    if holds_array(buf) && is_whole(buf, n) {
        let items = decoded_parts(buf, n, 0, n)->0;
        assert(v == JsonValue::Array(items));
        assert(v->Array_0 == items);
        lemma_decoded_parts_len(buf, n, 0, n);
        assert forall|k: int| 0 <= k < items.len() implies fits(#[trigger] items[k]) && payload(
            items[k],
        ).len() == entry_len(buf, k) && crate::format::code(items[k]) == entry_code(buf, k) by {
            lemma_decoded_parts(buf, n, 0, n, k);
            lemma_payload_shorter(buf, n, k);
            lemma_decoded_part_fits(entry_code(buf, k), payload_at(buf, n, k));
        }
        lemma_array_assembled(items);
        lemma_assembled_header(ARRAY_KIND as int, n, item_codes(items), item_loads(items));
        lemma_blob_lengths(buf, item_loads(items), n);
    } else {
        let names = decoded_keys(buf, n)->0;
        let values = decoded_parts(buf, 2 * n, n, n)->0;
        let members = names.zip_with(values);
        lemma_decoded_parts_len(buf, 2 * n, n, n);
        lemma_decoded_keys_len(buf, n);
        assert(v == JsonValue::Object(members));
        assert(v->Object_0 == members);
        assert(members.len() == n);
        assert forall|k: int| 0 <= k < n implies encode_utf8((#[trigger] members[k]).0).len()
            == entry_len(buf, k) && fits(members[k].1) && payload(members[k].1).len()
            == entry_len(buf, n + k) && crate::format::code(members[k].1) == entry_code(
            buf,
            n + k,
        ) by {
            lemma_decoded_parts(buf, 2 * n, n, n, k);
            lemma_decoded_keys(buf, n, k);
            lemma_payload_shorter(buf, 2 * n, n + k);
            lemma_payload_shorter(buf, 2 * n, k);
            lemma_decoded_part_fits(entry_code(buf, n + k), payload_at(buf, 2 * n, n + k));
            vstd::utf8::decode_utf8_encode_utf8(payload_at(buf, 2 * n, k));
            assert(members[k] == (names[k], values[k]));
        }
        lemma_object_assembled(members);
        lemma_assembled_header(OBJECT_KIND as int, n, member_codes(members), member_loads(members));
        assert forall|k: int| 0 <= k < 2 * n implies (#[trigger] member_loads(members)[k]).len()
            == entry_len(buf, k) by {
            if k < n {
                assert(encode_utf8(members[k].0).len() == entry_len(buf, k));
            } else {
                assert(payload(members[k - n].1).len() == entry_len(buf, n + (k - n)));
            }
        }
        lemma_blob_lengths(buf, member_loads(members), 2 * n);
    }
}

/// A value that was read from a buffer can be written again, its buffer is
/// then as long as the one that it was read from, and it is read back from
/// its buffer as the same value.
pub proof fn law_decoded_round_trips(buf: Seq<u8>)
    requires
        decoded(buf) is Some,
    ensures
        fits(decoded(buf)->0),
        encoding(decoded(buf)->0).len() == buf.len(),
        decoded(encoding(decoded(buf)->0)) == decoded(buf),
{
    let v = decoded(buf)->0;
    if holds_scalar(buf) {
        lemma_payload_shorter(buf, 1, 0);
        let code = entry_code(buf, 0);
        let load = payload_at(buf, 1, 0);
        assert(decoded_part(code, load) == Some(v));
        lemma_decoded_part_fits(code, load);
        lemma_scalar_layout(v);
        assert(lengths(buf, 1) == lengths(buf, 0) + entry_len(buf, 0));
        assert(lengths(encoding(v), 1) == lengths(encoding(v), 0) + entry_len(encoding(v), 0));
    } else {
        lemma_decoded_container_fits(buf);
    }
    law_round_trip(v);
}

/// Once a part cannot be read, no longer row of parts can.
pub proof fn lemma_parts_stay_unread(buf: Seq<u8>, total: int, first: int, n: int, m: int)
    requires
        0 <= n <= m,
        decoded_parts(buf, total, first, n) is None,
    ensures
        decoded_parts(buf, total, first, m) is None,
    decreases m,
{
    if n < m {
        lemma_parts_stay_unread(buf, total, first, n, m - 1);
    }
}

/// Once a key cannot be read, no longer row of keys can.
pub proof fn lemma_keys_stay_unread(buf: Seq<u8>, n: int, m: int)
    requires
        0 <= n <= m,
        decoded_keys(buf, n) is None,
    ensures
        decoded_keys(buf, m) is None,
    decreases m,
{
    if n < m {
        lemma_keys_stay_unread(buf, n, m - 1);
    }
}

/// The value that an optional value stands for.
pub open spec fn value_in(r: Option<Value>) -> Option<JsonValue> {
    match r {
        Some(v) => Some(v@),
        None => None,
    }
}

/// The text that the bytes spell in UTF-8, by `core::str::from_utf8`: there
/// is one exactly where the bytes are well-formed UTF-8, and it is made of
/// the characters that they encode.
#[verifier::external_body]
pub(crate) fn utf8_text(bytes: &[u8]) -> (r: Option<&str>)
    ensures
        r is Some <==> valid_utf8(bytes@),
        r matches Some(s) ==> s@ == decode_utf8(bytes@),
{
    match core::str::from_utf8(bytes) {
        Ok(s) => Some(s),
        Err(_) => None,
    }
}

/// A copy of the text that the bytes spell in UTF-8.
fn text_of(bytes: &[u8]) -> (r: Option<String>)
    ensures
        r is Some <==> valid_utf8(bytes@),
        r matches Some(s) ==> s@ == decode_utf8(bytes@),
{
    match utf8_text(bytes) {
        Some(s) => Some(s.to_owned()),
        None => None,
    }
}

/// The 64-bit word at `at`.
fn read_long(buf: &[u8], at: usize) -> (w: u64)
    requires
        at + 8 <= buf.len(),
    ensures
        w == long_at(buf@, at as int),
{
    (read_word(buf, at) as u64) * 0x1_0000_0000 + read_word(buf, at + 4) as u64
}

/// The number that a payload holds.
pub(crate) fn decode_number(load: &[u8]) -> (r: Option<Number>)
    ensures
        match r {
            Some(n) => decoded_number(load@) == Some(n@),
            None => decoded_number(load@) is None,
        },
{
    if load.len() != 9 {
        return None;
    }
    let w = read_long(load, 1);
    if load[0] == 0 {
        if w <= i64::MAX as u64 {
            Some(Number::Int64(w as i64))
        } else {
            Some(Number::Int64((w - 0x8000_0000_0000_0000) as i64 + i64::MIN))
        }
    } else if load[0] == 1 {
        Some(Number::UInt64(w))
    } else if load[0] == 2 && !nan(w) {
        Some(Number::Float64(w))
    } else {
        None
    }
}

/// The null, boolean, number or string that an entry of the given type code
/// and its payload hold.
pub(crate) fn decode_scalar(code: u32, load: &[u8]) -> (r: Option<Value>)
    ensures
        value_in(r) == decoded_scalar(code as int, load@),
{
    if code == NULL_CODE && load.len() == 0 {
        Some(Value::Null)
    } else if code == FALSE_CODE && load.len() == 0 {
        Some(Value::Bool(false))
    } else if code == TRUE_CODE && load.len() == 0 {
        Some(Value::Bool(true))
    } else if code == NUMBER_CODE {
        match decode_number(load) {
            Some(n) => Some(Value::Number(n)),
            None => None,
        }
    } else if code == STRING_CODE {
        match text_of(load) {
            Some(s) => Some(Value::String(s)),
            None => None,
        }
    } else {
        None
    }
}

/// The value that an entry of the given type code and its payload hold.
pub(crate) fn decode_part(code: u32, load: &[u8]) -> (r: Option<Value>)
    ensures
        value_in(r) == decoded_part(code as int, load@),
    decreases load@.len(), 2int,
{
    if code == CONTAINER_CODE {
        decode_container(load)
    } else {
        decode_scalar(code, load)
    }
}

/// The array or object that a buffer holds.
pub(crate) fn decode_container(buf: &[u8]) -> (r: Option<Value>)
    ensures
        value_in(r) == decoded_container(buf@),
    decreases buf@.len(), 1int,
{
    let (kind, n) = match read_header(buf) {
        Some(header) => header,
        None => {
            return None;
        },
    };
    if kind == ARRAY_KIND {
        let mut at = match offset_of(buf, n, 0) {
            Some(at) => at,
            None => {
                return None;
            },
        };
        let mut items: Vec<Value> = Vec::new();
        let ghost mut done: Seq<JsonValue> = Seq::empty();
        let mut k: usize = 0;
        while k < n
            invariant
                holds_array(buf@),
                n == count(buf@),
                n < LIMIT,
                4 + 4 * n <= buf.len(),
                0 <= k <= n,
                at == payload_start(buf@, n as int, k as int),
                at <= buf.len(),
                decoded_parts(buf@, n as int, 0, k as int) == Some(done),
                done.len() == k,
                items.len() == k,
                forall|i: int| 0 <= i < k ==> #[trigger] done[i] == items[i]@,
            decreases n - k,
        {
            let w = read_word(buf, 4 + 4 * k);
            let len = (w % LIMIT) as usize;
            proof {
                assert(lengths(buf@, k + 1) == lengths(buf@, k as int) + entry_len(
                    buf@,
                    k as int,
                ));
                if len <= buf.len() - at {
                    lemma_payload_shorter(buf@, n as int, k as int);
                }
            }
            let item = if len > buf.len() - at {
                None
            } else {
                decode_part(w / LIMIT, slice_subrange(buf, at, at + len))
            };
            match item {
                Some(item) => {
                    let ghost old_items = items@;
                    let ghost old_done = done;
                    let ghost last = item;
                    proof {
                        done = done.push(item@);
                    }
                    items.push(item);
                    at = at + len;
                    k += 1;
                    assert forall|i: int| 0 <= i < k implies #[trigger] done[i] == items[i]@ by {
                        if i < k - 1 {
                            assert(items[i] == old_items[i]);
                            assert(done[i] == old_done[i]);
                        } else {
                            assert(items[i] == last);
                        }
                    }
                    assert(decoded_parts(buf@, n as int, 0, k as int) == Some(done));
                },
                None => {
                    proof {
                        assert(decoded_parts(buf@, n as int, 0, k + 1) is None);
                        lemma_parts_stay_unread(buf@, n as int, 0, k + 1, n as int);
                    }
                    return None;
                },
            }
        }
        if at != buf.len() {
            return None;
        }
        let value = Value::Array(items);
        proof {
            lemma_array_view(value);
            assert(value@->Array_0 =~= done);
        }
        Some(value)
    } else if kind == OBJECT_KIND {
        let mut key_at = match offset_of(buf, 2 * n, 0) {
            Some(at) => at,
            None => {
                return None;
            },
        };
        let mut at = match offset_of(buf, 2 * n, n) {
            Some(at) => at,
            None => {
                proof {
                    if 4 + 8 * n <= buf.len() {
                        lemma_lengths_grow(buf@, n as int, 2 * n);
                    }
                }
                return None;
            },
        };
        let mut members: Vec<(String, Value)> = Vec::new();
        let ghost mut done_keys: Seq<Seq<char>> = Seq::empty();
        let ghost mut done: Seq<JsonValue> = Seq::empty();
        let mut k: usize = 0;
        while k < n
            invariant
                holds_object(buf@),
                n == count(buf@),
                n < LIMIT,
                4 + 8 * n <= buf.len(),
                0 <= k <= n,
                key_at == payload_start(buf@, 2 * n, k as int),
                at == payload_start(buf@, 2 * n, n + k),
                key_at <= buf.len(),
                at <= buf.len(),
                decoded_keys(buf@, k as int) == Some(done_keys),
                decoded_parts(buf@, 2 * n, n as int, k as int) == Some(done),
                done.len() == k,
                done_keys.len() == k,
                members.len() == k,
                forall|i: int|
                    0 <= i < k ==> #[trigger] done[i] == members[i].1@ && done_keys[i]
                        == members[i].0@,
            decreases n - k,
        {
            let key_word = read_word(buf, 4 + 4 * k);
            let key_len = (key_word % LIMIT) as usize;
            let w = read_word(buf, 4 + 4 * (n + k));
            let len = (w % LIMIT) as usize;
            proof {
                assert(lengths(buf@, k + 1) == lengths(buf@, k as int) + entry_len(
                    buf@,
                    k as int,
                ));
                assert(lengths(buf@, n + k + 1) == lengths(buf@, n + k) + entry_len(buf@, n + k));
                if len <= buf.len() - at {
                    lemma_payload_shorter(buf@, 2 * n, n + k);
                }
            }
            let key = if key_len > buf.len() - key_at || key_word / LIMIT != STRING_CODE {
                None
            } else {
                text_of(slice_subrange(buf, key_at, key_at + key_len))
            };
            let key = match key {
                Some(key) => key,
                None => {
                    proof {
                        assert(decoded_keys(buf@, k + 1) is None);
                        lemma_keys_stay_unread(buf@, k + 1, n as int);
                    }
                    return None;
                },
            };
            let item = if len > buf.len() - at {
                None
            } else {
                decode_part(w / LIMIT, slice_subrange(buf, at, at + len))
            };
            match item {
                Some(item) => {
                    let ghost old_members = members@;
                    let ghost old_done = done;
                    let ghost old_keys = done_keys;
                    let ghost pair = (key, item);
                    proof {
                        done = done.push(item@);
                        done_keys = done_keys.push(key@);
                    }
                    members.push((key, item));
                    key_at = key_at + key_len;
                    at = at + len;
                    k += 1;
                    assert forall|i: int| 0 <= i < k implies #[trigger] done[i] == members[i].1@
                        && done_keys[i] == members[i].0@ by {
                        if i < k - 1 {
                            assert(members[i] == old_members[i]);
                            assert(done[i] == old_done[i]);
                            assert(done_keys[i] == old_keys[i]);
                        } else {
                            assert(members[i] == pair);
                            assert(done[i] == pair.1@);
                            assert(done_keys[i] == pair.0@);
                        }
                    }
                    assert(decoded_parts(buf@, 2 * n, n as int, k as int) == Some(done));
                    assert(decoded_keys(buf@, k as int) == Some(done_keys));
                },
                None => {
                    proof {
                        assert(decoded_parts(buf@, 2 * n, n as int, k + 1) is None);
                        lemma_parts_stay_unread(buf@, 2 * n, n as int, k + 1, n as int);
                    }
                    return None;
                },
            }
        }
        if at != buf.len() {
            return None;
        }
        let value = Value::Object(members);
        proof {
            lemma_object_view(value);
            assert(value@->Object_0 =~= done_keys.zip_with(done));
        }
        Some(value)
    } else {
        None
    }
}

/// The value that the buffer holds.
///
/// The buffer is read as a whole: a scalar header with one entry and its
/// payload, or an array or object whose entries and payloads fill the
/// buffer, each nested array and object in the same way. An unknown type
/// code, a length that reaches beyond the buffer, a payload of the wrong
/// shape and text that is not UTF-8 are encoding errors.
pub fn from_slice(buf: &[u8]) -> (r: Result<Value, ErrorCode>)
    ensures
        match r {
            Ok(v) => decoded(buf@) == Some(v@),
            Err(e) => decoded(buf@) is None && e.kind == ErrorKind::InvalidEncoding,
        },
{
    let value = match read_header(buf) {
        Some((kind, n)) => if kind == SCALAR_KIND {
            if n != 1 || buf.len() < 8 {
                None
            } else {
                let w = read_word(buf, 4);
                proof {
                    assert(lengths(buf@, 1) == lengths(buf@, 0) + entry_len(buf@, 0));
                }
                if (w % LIMIT) as usize != buf.len() - 8 {
                    None
                } else {
                    decode_scalar(w / LIMIT, slice_subrange(buf, 8, buf.len()))
                }
            }
        } else {
            decode_container(buf)
        },
        None => None,
    };
    match value {
        Some(v) => Ok(v),
        None => Err(ErrorCode::invalid_encoding("the buffer holds no value".to_owned())),
    }
}

/// The value that a buffer with a scalar header holds, where it is a whole
/// buffer of one null, boolean, number or string.
pub open spec fn scalar_in(buf: Seq<u8>) -> Option<JsonValue> {
    if holds_scalar(buf) {
        decoded(buf)
    } else {
        None
    }
}

/// The type code and the payload of the scalar that the buffer holds, where
/// it has a scalar header with one entry whose payload fills the buffer.
pub(crate) fn read_scalar(buf: &[u8]) -> (r: Option<(u32, &[u8])>)
    ensures
        match r {
            Some((code, load)) => holds_scalar(buf@) && count(buf@) == 1 && is_whole(buf@, 1)
                && code == entry_code(buf@, 0) && load@ == payload_at(buf@, 1, 0),
            None => !(holds_scalar(buf@) && count(buf@) == 1 && is_whole(buf@, 1)),
        },
{
    match read_header(buf) {
        Some((kind, n)) => {
            if kind != SCALAR_KIND || n != 1 || buf.len() < 8 {
                return None;
            }
            let w = read_word(buf, 4);
            proof {
                assert(lengths(buf@, 1) == lengths(buf@, 0) + entry_len(buf@, 0));
            }
            if (w % LIMIT) as usize != buf.len() - 8 {
                return None;
            }
            Some((w / LIMIT, slice_subrange(buf, 8, buf.len())))
        },
        None => None,
    }
}

/// `Some` where the buffer holds null.
pub fn as_null(buf: &[u8]) -> (r: Option<()>)
    ensures
        r is Some <==> scalar_in(buf@) == Some(JsonValue::Null),
{
    match read_scalar(buf) {
        Some((code, load)) => if code == NULL_CODE && load.len() == 0 {
            Some(())
        } else {
            None
        },
        None => None,
    }
}

/// The boolean that the buffer holds.
pub fn as_bool(buf: &[u8]) -> (r: Option<bool>)
    ensures
        match r {
            Some(b) => scalar_in(buf@) == Some(JsonValue::Bool(b)),
            None => !(scalar_in(buf@) matches Some(JsonValue::Bool(_))),
        },
{
    match read_scalar(buf) {
        Some((code, load)) => if code == FALSE_CODE && load.len() == 0 {
            Some(false)
        } else if code == TRUE_CODE && load.len() == 0 {
            Some(true)
        } else {
            None
        },
        None => None,
    }
}

/// The number that the buffer holds.
pub fn as_number(buf: &[u8]) -> (r: Option<Number>)
    ensures
        match r {
            Some(n) => scalar_in(buf@) == Some(JsonValue::Number(n@)),
            None => !(scalar_in(buf@) matches Some(JsonValue::Number(_))),
        },
{
    match read_scalar(buf) {
        Some((code, load)) => if code == NUMBER_CODE {
            decode_number(load)
        } else {
            None
        },
        None => None,
    }
}

/// The string that the buffer holds, where it lies in the buffer.
pub fn as_str(buf: &[u8]) -> (r: Option<&str>)
    ensures
        match r {
            Some(s) => scalar_in(buf@) == Some(JsonValue::String(s@)),
            None => !(scalar_in(buf@) matches Some(JsonValue::String(_))),
        },
{
    match read_scalar(buf) {
        Some((code, load)) => if code == STRING_CODE {
            utf8_text(load)
        } else {
            None
        },
        None => None,
    }
}

/// What a buffer can be turned into.
pub enum Readable {
    /// The buffer holds this null, boolean, number or string.
    Scalar(JsonValue),
    /// The buffer has the header of an array or object.
    Container,
    /// The buffer holds nothing that can be read.
    Broken,
}

/// What the conversions make of a buffer.
pub open spec fn readable(buf: Seq<u8>) -> Readable {
    if scalar_in(buf) is Some {
        Readable::Scalar(scalar_in(buf)->0)
    } else if holds_array(buf) || holds_object(buf) {
        Readable::Container
    } else {
        Readable::Broken
    }
}

/// The boolean that a value converts to: a boolean itself, and the strings
/// `true` and `false`.
pub open spec fn bool_of(v: JsonValue) -> Option<bool> {
    match v {
        JsonValue::Bool(b) => Some(b),
        JsonValue::String(s) => if s == "true"@ {
            Some(true)
        } else if s == "false"@ {
            Some(false)
        } else {
            None
        },
        _ => None,
    }
}

/// The integer that a value converts to: an integer itself, and 0 and 1 for
/// the booleans.
pub open spec fn integer_of(v: JsonValue) -> Option<int> {
    match v {
        JsonValue::Bool(false) => Some(0),
        JsonValue::Bool(true) => Some(1),
        JsonValue::Number(NumberValue::Integer(n)) => Some(n),
        _ => None,
    }
}

/// The result of a conversion: the converted value where there is one, a
/// type mismatch where the buffer holds a value that does not convert, and
/// an encoding error where the buffer holds nothing that can be read.
pub open spec fn is_conversion<T>(
    r: Result<T, ErrorCode>,
    buf: Seq<u8>,
    expected: spec_fn(JsonValue) -> Option<T>,
) -> bool {
    match r {
        Ok(t) => readable(buf) matches Readable::Scalar(v) && expected(v) == Some(t),
        Err(e) => match readable(buf) {
            Readable::Scalar(v) => expected(v) is None && e.kind == ErrorKind::TypeMismatch,
            Readable::Container => e.kind == ErrorKind::TypeMismatch,
            Readable::Broken => e.kind == ErrorKind::InvalidEncoding,
        },
    }
}

/// The error of a buffer that does not convert to the type asked for.
pub(crate) fn not_convertible(buf: &[u8]) -> (e: ErrorCode)
    ensures
        e.kind == if readable(buf@) is Broken {
            ErrorKind::InvalidEncoding
        } else {
            ErrorKind::TypeMismatch
        },
{
    let whole = match read_scalar(buf) {
        Some((code, load)) => decode_scalar(code, load).is_some(),
        None => false,
    };
    if whole {
        ErrorCode::type_mismatch("the value does not convert to the type".to_owned())
    } else {
        match read_header(buf) {
            Some((kind, _)) => if kind == ARRAY_KIND || kind == OBJECT_KIND {
                ErrorCode::type_mismatch("the value does not convert to the type".to_owned())
            } else {
                ErrorCode::invalid_encoding("the buffer holds no value".to_owned())
            },
            None => ErrorCode::invalid_encoding("the buffer holds no value".to_owned()),
        }
    }
}

/// The boolean that the value in the buffer converts to: a boolean itself,
/// and `true` and `false` for the strings of these names.
pub fn to_bool(buf: &[u8]) -> (r: Result<bool, ErrorCode>)
    ensures
        is_conversion(r, buf@, |v: JsonValue| bool_of(v)),
{
    if let Some(b) = as_bool(buf) {
        return Ok(b);
    }
    if let Some(s) = as_str(buf) {
        if crate::functions::same_text(s, "true") {
            return Ok(true);
        }
        if crate::functions::same_text(s, "false") {
            return Ok(false);
        }
    }
    Err(not_convertible(buf))
}

/// The signed integer that the value in the buffer converts to: an integer
/// that a signed 64-bit word can hold, and 0 and 1 for the booleans.
pub fn to_i64(buf: &[u8]) -> (r: Result<i64, ErrorCode>)
    ensures
        is_conversion(
            r,
            buf@,
            |v: JsonValue|
                match integer_of(v) {
                    Some(n) => if i64::MIN <= n <= i64::MAX {
                        Some(n as i64)
                    } else {
                        None
                    },
                    None => None,
                },
        ),
{
    if let Some(b) = as_bool(buf) {
        return Ok(if b {
            1
        } else {
            0
        });
    }
    match as_number(buf) {
        Some(Number::Int64(n)) => Ok(n),
        Some(Number::UInt64(n)) => if n <= i64::MAX as u64 {
            Ok(n as i64)
        } else {
            Err(not_convertible(buf))
        },
        _ => Err(not_convertible(buf)),
    }
}

/// The unsigned integer that the value in the buffer converts to: an
/// integer that is not negative, and 0 and 1 for the booleans.
pub fn to_u64(buf: &[u8]) -> (r: Result<u64, ErrorCode>)
    ensures
        is_conversion(
            r,
            buf@,
            |v: JsonValue|
                match integer_of(v) {
                    Some(n) => if 0 <= n <= u64::MAX {
                        Some(n as u64)
                    } else {
                        None
                    },
                    None => None,
                },
        ),
{
    if let Some(b) = as_bool(buf) {
        return Ok(if b {
            1
        } else {
            0
        });
    }
    match as_number(buf) {
        Some(Number::UInt64(n)) => Ok(n),
        Some(Number::Int64(n)) => if n >= 0 {
            Ok(n as u64)
        } else {
            Err(not_convertible(buf))
        },
        _ => Err(not_convertible(buf)),
    }
}

/// The bits of the binary64 that a value converts to: those of a
/// floating-point number itself, those of the binary64 nearest to an
/// integer, and those of 0 and 1 for the booleans.
pub open spec fn float_of(v: JsonValue) -> Option<u64> {
    match v {
        JsonValue::Bool(false) => Some(0),
        JsonValue::Bool(true) => Some(0x3ff0_0000_0000_0000),
        JsonValue::Number(n) => Some(crate::number::float_bits(n) as u64),
        _ => None,
    }
}

/// The bits of the binary64 that the value in the buffer converts to: a
/// number as a binary64, and 0 and 1 for the booleans.
pub fn to_f64_bits(buf: &[u8]) -> (r: Result<u64, ErrorCode>)
    ensures
        is_conversion(r, buf@, |v: JsonValue| float_of(v)),
{
    if let Some(b) = as_bool(buf) {
        return Ok(if b {
            0x3ff0_0000_0000_0000
        } else {
            0
        });
    }
    match as_number(buf) {
        Some(n) => Ok(n.to_float_bits()),
        None => Err(not_convertible(buf)),
    }
}

} // verus!
