//! The binary form of a JSON value.
//!
//! A buffer is a 32-bit header, a row of 32-bit entries and the payloads
//! that the entries describe, in the same order. All words are big-endian.
//! The upper four bits of the header say what the buffer holds, the lower
//! twenty-eight how many children; the upper four bits of an entry give the
//! type of a child, the lower twenty-eight the length of its payload.
use crate::number::{is_nan, NumberValue};
use vstd::prelude::*;
use vstd::utf8::encode_utf8;

verus! {

/// Lengths and counts are below this bound: they fill twenty-eight bits.
pub const LIMIT: u32 = 0x1000_0000;

/// The header of an array.
pub const ARRAY_KIND: u32 = 8;

/// The header of an object.
pub const OBJECT_KIND: u32 = 4;

/// The header of a buffer that holds one null, boolean, number or string.
pub const SCALAR_KIND: u32 = 2;

/// The entry of a string; its payload is the text in UTF-8.
pub const STRING_CODE: u32 = 0;

/// The entry of a number; its payload is a tag byte and eight bytes.
pub const NUMBER_CODE: u32 = 1;

/// The entry of `false`; it has no payload.
pub const FALSE_CODE: u32 = 2;

/// The entry of `true`; it has no payload.
pub const TRUE_CODE: u32 = 3;

/// The entry of `null`; it has no payload.
pub const NULL_CODE: u32 = 4;

/// The entry of a nested array or object; its payload is a whole buffer.
pub const CONTAINER_CODE: u32 = 5;

/// A JSON value. An object is the sequence of its members in stored order.
pub enum JsonValue {
    Null,
    Bool(bool),
    Number(NumberValue),
    String(Seq<char>),
    Array(Seq<JsonValue>),
    Object(Seq<(Seq<char>, JsonValue)>),
}

/// The four bytes of a 32-bit word, the most significant first.
pub open spec fn word_bytes(w: int) -> Seq<u8> {
    seq![
        (w / 0x100_0000) as u8,
        (w / 0x1_0000 % 0x100) as u8,
        (w / 0x100 % 0x100) as u8,
        (w % 0x100) as u8,
    ]
}

/// The word whose upper four bits are `tag` and whose lower bits are `n`.
pub open spec fn tagged(tag: int, n: int) -> Seq<u8> {
    word_bytes(tag * LIMIT + n)
}

/// The eight bytes of a 64-bit word, the most significant first.
pub open spec fn long_bytes(w: int) -> Seq<u8> {
    word_bytes(w / 0x1_0000_0000) + word_bytes(w % 0x1_0000_0000)
}

/// The payload of a number: a tag byte, then the eight bytes of the number.
/// An integer that a signed 64-bit word can hold is written in one, in
/// two's complement, under the tag 0; a larger one in an unsigned word under
/// the tag 1; a floating-point number as its bits under the tag 2.
pub open spec fn number_bytes(n: NumberValue) -> Seq<u8> {
    match n {
        NumberValue::Integer(v) => if v < 0 {
            seq![0u8] + long_bytes(v + 0x1_0000_0000_0000_0000)
        } else if v <= i64::MAX {
            seq![0u8] + long_bytes(v)
        } else {
            seq![1u8] + long_bytes(v)
        },
        NumberValue::Float(bits) => seq![2u8] + long_bytes(bits as int),
    }
}

/// The type code in the entry of a child.
pub open spec fn code(v: JsonValue) -> int {
    match v {
        JsonValue::String(_) => STRING_CODE as int,
        JsonValue::Number(_) => NUMBER_CODE as int,
        JsonValue::Bool(false) => FALSE_CODE as int,
        JsonValue::Bool(true) => TRUE_CODE as int,
        JsonValue::Null => NULL_CODE as int,
        JsonValue::Array(_) | JsonValue::Object(_) => CONTAINER_CODE as int,
    }
}

/// The payload of a child: nothing for null and the booleans, the bytes of a
/// number, the text of a string, and the whole buffer of an array or object.
pub open spec fn payload(v: JsonValue) -> Seq<u8>
    decreases v, 0int,
{
    match v {
        JsonValue::Null | JsonValue::Bool(_) => Seq::empty(),
        JsonValue::Number(n) => number_bytes(n),
        JsonValue::String(s) => encode_utf8(s),
        JsonValue::Array(items) => tagged(ARRAY_KIND as int, items.len() as int) + entries(
            items,
            items.len() as int,
        ) + payloads(items, items.len() as int),
        JsonValue::Object(members) => tagged(OBJECT_KIND as int, members.len() as int)
            + key_entries(members, members.len() as int) + member_entries(
            members,
            members.len() as int,
        ) + key_payloads(members, members.len() as int) + member_payloads(
            members,
            members.len() as int,
        ),
    }
}

/// The entry of a child.
pub open spec fn entry(v: JsonValue) -> Seq<u8>
    decreases v, 1int,
{
    tagged(code(v), payload(v).len() as int)
}

/// The entries of the first `n` of the items.
pub open spec fn entries(items: Seq<JsonValue>, n: int) -> Seq<u8>
    decreases items, n,
{
    if 0 < n <= items.len() {
        entries(items, n - 1) + entry(items[n - 1])
    } else {
        Seq::empty()
    }
}

/// The payloads of the first `n` of the items.
pub open spec fn payloads(items: Seq<JsonValue>, n: int) -> Seq<u8>
    decreases items, n,
{
    if 0 < n <= items.len() {
        payloads(items, n - 1) + payload(items[n - 1])
    } else {
        Seq::empty()
    }
}

/// The entries of the keys of the first `n` members.
pub open spec fn key_entries(members: Seq<(Seq<char>, JsonValue)>, n: int) -> Seq<u8>
    decreases n,
{
    if 0 < n <= members.len() {
        key_entries(members, n - 1) + tagged(
            STRING_CODE as int,
            encode_utf8(members[n - 1].0).len() as int,
        )
    } else {
        Seq::empty()
    }
}

/// The keys of the first `n` members.
pub open spec fn key_payloads(members: Seq<(Seq<char>, JsonValue)>, n: int) -> Seq<u8>
    decreases n,
{
    if 0 < n <= members.len() {
        key_payloads(members, n - 1) + encode_utf8(members[n - 1].0)
    } else {
        Seq::empty()
    }
}

/// The entries of the values of the first `n` members.
pub open spec fn member_entries(members: Seq<(Seq<char>, JsonValue)>, n: int) -> Seq<u8>
    decreases members, n,
{
    if 0 < n <= members.len() {
        member_entries(members, n - 1) + entry(members[n - 1].1)
    } else {
        Seq::empty()
    }
}

/// The payloads of the values of the first `n` members.
pub open spec fn member_payloads(members: Seq<(Seq<char>, JsonValue)>, n: int) -> Seq<u8>
    decreases members, n,
{
    if 0 < n <= members.len() {
        member_payloads(members, n - 1) + payload(members[n - 1].1)
    } else {
        Seq::empty()
    }
}

/// The buffer that holds a value: for an array or an object its payload, for
/// any other value a scalar header, the entry and the payload.
pub open spec fn encoding(v: JsonValue) -> Seq<u8> {
    match v {
        JsonValue::Array(_) | JsonValue::Object(_) => payload(v),
        _ => tagged(SCALAR_KIND as int, 1) + entry(v) + payload(v),
    }
}

/// The 32-bit word that the four bytes from `at` on hold.
pub open spec fn word_at(buf: Seq<u8>, at: int) -> int {
    buf[at] * 0x100_0000 + buf[at + 1] * 0x1_0000 + buf[at + 2] * 0x100 + buf[at + 3]
}

/// What the header says the buffer holds; meaningful where the buffer has
/// a header, that is at least four bytes.
pub open spec fn kind(buf: Seq<u8>) -> int {
    word_at(buf, 0) / (LIMIT as int)
}

/// The number of children that the header gives.
pub open spec fn count(buf: Seq<u8>) -> int {
    word_at(buf, 0) % (LIMIT as int)
}

/// The type code of the entry `k`.
pub open spec fn entry_code(buf: Seq<u8>, k: int) -> int {
    word_at(buf, 4 + 4 * k) / (LIMIT as int)
}

/// The length of the payload that the entry `k` describes.
pub open spec fn entry_len(buf: Seq<u8>, k: int) -> int {
    word_at(buf, 4 + 4 * k) % (LIMIT as int)
}

/// The lengths of the payloads of the first `k` entries, added up.
pub open spec fn lengths(buf: Seq<u8>, k: int) -> int
    decreases k,
{
    if k <= 0 {
        0
    } else {
        lengths(buf, k - 1) + entry_len(buf, k - 1)
    }
}

/// Where the payload of the entry `k` starts in a buffer of `total`
/// entries: behind the header, the entries and the payloads before it.
pub open spec fn payload_start(buf: Seq<u8>, total: int, k: int) -> int {
    4 + 4 * total + lengths(buf, k)
}

/// Where the payload of the entry `k` ends.
pub open spec fn payload_end(buf: Seq<u8>, total: int, k: int) -> int {
    payload_start(buf, total, k) + entry_len(buf, k)
}

/// The entry `k` of a buffer of `total` entries can be read: it is one of
/// them, all entries lie in the buffer, and so does its payload.
pub open spec fn in_reach(buf: Seq<u8>, total: int, k: int) -> bool {
    0 <= k < total && 4 + 4 * total <= buf.len() && payload_end(buf, total, k) <= buf.len()
}

/// The payload of the entry `k`.
pub open spec fn payload_at(buf: Seq<u8>, total: int, k: int) -> Seq<u8> {
    buf.subrange(payload_start(buf, total, k), payload_end(buf, total, k))
}

/// A child with the given entry and payload as a buffer of its own: a nested
/// array or object is its payload, any other child gets a scalar header.
pub open spec fn standalone(entry: Seq<u8>, payload: Seq<u8>, code: int) -> Seq<u8> {
    if code == CONTAINER_CODE {
        payload
    } else {
        tagged(SCALAR_KIND as int, 1) + entry + payload
    }
}

/// The child under the entry `k` of a buffer of `total` entries as a buffer
/// of its own; `None` where the entry cannot be read or its type code is
/// unknown.
pub open spec fn child(buf: Seq<u8>, total: int, k: int) -> Option<Seq<u8>> {
    if in_reach(buf, total, k) && entry_code(buf, k) <= CONTAINER_CODE {
        Some(
            standalone(
                buf.subrange(4 + 4 * k, 8 + 4 * k),
                payload_at(buf, total, k),
                entry_code(buf, k),
            ),
        )
    } else {
        None
    }
}

/// The buffer has a header that says it holds an array.
pub open spec fn holds_array(buf: Seq<u8>) -> bool {
    buf.len() >= 4 && kind(buf) == ARRAY_KIND
}

/// The buffer has a header that says it holds an object.
pub open spec fn holds_object(buf: Seq<u8>) -> bool {
    buf.len() >= 4 && kind(buf) == OBJECT_KIND
}

/// The buffer has a header that says it holds one scalar.
pub open spec fn holds_scalar(buf: Seq<u8>) -> bool {
    buf.len() >= 4 && kind(buf) == SCALAR_KIND
}

/// The item `k` of an array as a buffer of its own.
pub open spec fn array_item(buf: Seq<u8>, k: int) -> Option<Seq<u8>> {
    if holds_array(buf) {
        child(buf, count(buf), k)
    } else {
        None
    }
}

/// The number of keys is in the header, all entries lie in the buffer, and
/// so do all keys.
pub open spec fn keys_in_reach(buf: Seq<u8>) -> bool {
    &&& holds_object(buf)
    &&& 4 + 8 * count(buf) <= buf.len()
    &&& payload_start(buf, 2 * count(buf), count(buf)) <= buf.len()
}

/// The key of the member `k` of an object: the payload of the entry `k`.
pub open spec fn key_at(buf: Seq<u8>, k: int) -> Seq<u8> {
    payload_at(buf, 2 * count(buf), k)
}

/// The value of the member `k` of an object as a buffer of its own: the
/// child under the entry `k` behind the entries of the keys.
pub open spec fn member_at(buf: Seq<u8>, k: int) -> Option<Seq<u8>> {
    child(buf, 2 * count(buf), count(buf) + k)
}

/// The byte with an ASCII upper-case letter turned into its lower-case form.
pub open spec fn lower(b: u8) -> u8 {
    if 0x41 <= b <= 0x5a {
        (b + 32) as u8
    } else {
        b
    }
}

/// The two texts are equal but for the case of their ASCII letters.
pub open spec fn same_ignoring_case(a: Seq<u8>, b: Seq<u8>) -> bool {
    a.len() == b.len() && forall|i: int| 0 <= i < a.len() ==> lower(#[trigger] a[i]) == lower(b[i])
}

/// The member `k` is the one that a lookup of `name` finds: the last member
/// whose key is `name`; or, where no key is `name` and case is ignored, the
/// first member whose key is `name` but for case.
pub open spec fn is_found_at(buf: Seq<u8>, name: Seq<u8>, ignore_case: bool, k: int) -> bool {
    &&& 0 <= k < count(buf)
    &&& {
        ||| {
            &&& key_at(buf, k) == name
            &&& forall|j: int| k < j < count(buf) ==> #[trigger] key_at(buf, j) != name
        }
        ||| {
            &&& ignore_case
            &&& forall|j: int| 0 <= j < count(buf) ==> #[trigger] key_at(buf, j) != name
            &&& same_ignoring_case(key_at(buf, k), name)
            &&& forall|j: int| 0 <= j < k ==> !same_ignoring_case(#[trigger] key_at(buf, j), name)
        }
    }
}

/// The value of the member that a lookup of `name` finds, as a buffer of
/// its own; `None` where the buffer holds no object, where a key cannot be
/// read, where no member is found, and where its value cannot be read.
pub open spec fn member_by_name(buf: Seq<u8>, name: Seq<u8>, ignore_case: bool) -> Option<
    Seq<u8>,
> {
    if keys_in_reach(buf) && exists|k: int| is_found_at(buf, name, ignore_case, k) {
        member_at(buf, choose|k: int| is_found_at(buf, name, ignore_case, k))
    } else {
        None
    }
}

/// The keys of an object as an array of strings: an array header with the
/// number of members, the entries of the keys and the keys.
pub open spec fn keys_of(buf: Seq<u8>) -> Option<Seq<u8>> {
    if keys_in_reach(buf) {
        Some(
            tagged(ARRAY_KIND as int, count(buf)) + buf.subrange(4, 4 + 4 * count(buf))
                + buf.subrange(
                4 + 8 * count(buf),
                payload_start(buf, 2 * count(buf), count(buf)),
            ),
        )
    } else {
        None
    }
}

/// The lengths of more entries add up to no less.
pub proof fn lemma_lengths_grow(buf: Seq<u8>, i: int, j: int)
    requires
        0 <= i <= j,
    ensures
        0 <= lengths(buf, i) <= lengths(buf, j),
    decreases j,
{
    if j > 0 {
        if i < j {
            lemma_lengths_grow(buf, i, j - 1);
        } else {
            lemma_lengths_grow(buf, i - 1, j - 1);
        }
    }
}

/// The value can be written: its numbers fit in 64 bits and none is a NaN,
/// and every count and
/// every length that an entry or a header has to hold is below the limit.
pub open spec fn fits(v: JsonValue) -> bool
    decreases v,
{
    match v {
        JsonValue::Null | JsonValue::Bool(_) => true,
        JsonValue::Number(NumberValue::Integer(n)) => i64::MIN <= n <= u64::MAX,
        JsonValue::Number(NumberValue::Float(bits)) => !is_nan(bits),
        JsonValue::String(s) => encode_utf8(s).len() < LIMIT,
        JsonValue::Array(items) => {
            &&& items.len() < LIMIT
            &&& forall|i: int|
                0 <= i < items.len() ==> fits(#[trigger] items[i]) && payload(items[i]).len()
                    < LIMIT
        },
        JsonValue::Object(members) => {
            &&& members.len() < LIMIT
            &&& forall|i: int|
                0 <= i < members.len() ==> encode_utf8((#[trigger] members[i]).0).len() < LIMIT
                    && fits(members[i].1) && payload(members[i].1).len() < LIMIT
        },
    }
}

/// The entries and the payloads of the first `n` items are those of the
/// first `n - 1`, followed by the entry and the payload of one more.
pub proof fn lemma_array_step(items: Seq<JsonValue>, n: int)
    requires
        0 < n <= items.len(),
    ensures
        entries(items, n) == entries(items, n - 1) + entry(items[n - 1]),
        payloads(items, n) == payloads(items, n - 1) + payload(items[n - 1]),
{
}

/// The entries and the payloads of the first `n` members are those of the
/// first `n - 1`, followed by those of one more.
pub proof fn lemma_object_step(members: Seq<(Seq<char>, JsonValue)>, n: int)
    requires
        0 < n <= members.len(),
    ensures
        key_entries(members, n) == key_entries(members, n - 1) + tagged(
            STRING_CODE as int,
            encode_utf8(members[n - 1].0).len() as int,
        ),
        key_payloads(members, n) == key_payloads(members, n - 1) + encode_utf8(members[n - 1].0),
        member_entries(members, n) == member_entries(members, n - 1) + entry(members[n - 1].1),
        member_payloads(members, n) == member_payloads(members, n - 1) + payload(
            members[n - 1].1,
        ),
{
}

} // verus!
