//! JSON values in memory, and writing them in the binary form.
use crate::format::{
    code, encoding, entries, entry, fits, key_entries, key_payloads, lemma_array_step,
    lemma_object_step, long_bytes, member_entries, member_payloads, number_bytes, payload, payloads,
    tagged, word_bytes, JsonValue, ARRAY_KIND, CONTAINER_CODE, FALSE_CODE, LIMIT, NULL_CODE,
    NUMBER_CODE, OBJECT_KIND, SCALAR_KIND, STRING_CODE, TRUE_CODE,
};
use crate::jsonpath::exception::{ErrorCode, ErrorKind};
use crate::number::{nan, Number};
use vstd::prelude::*;
use vstd::std_specs::vec::axiom_vec_index_decreases;

use vstd::utf8::encode_utf8;

verus! {

/// A JSON value. The members of an object are kept in the order in which
/// they were given; a name may occur more than once.
#[derive(Debug, PartialEq)]
pub enum Value {
    Null,
    Bool(bool),
    Number(Number),
    String(String),
    Array(Vec<Value>),
    Object(Vec<(String, Value)>),
}

impl View for Value {
    type V = JsonValue;

    open spec fn view(&self) -> JsonValue
        decreases self, 0int,
    {
        match self {
            Value::Null => JsonValue::Null,
            Value::Bool(b) => JsonValue::Bool(*b),
            Value::Number(n) => JsonValue::Number(n@),
            Value::String(s) => JsonValue::String(s@),
            Value::Array(items) => JsonValue::Array(item_views(*items, items.len() as int)),
            Value::Object(members) => JsonValue::Object(
                member_views(*members, members.len() as int),
            ),
        }
    }
}

/// The first `n` of the items as values of the model.
pub open spec fn item_views(items: Vec<Value>, n: int) -> Seq<JsonValue>
    decreases items, n,
{
    if 0 < n <= items.len() {
        item_views(items, n - 1).push(items[n - 1]@)
    } else {
        Seq::empty()
    }
}

/// The first `n` of the members as members of the model.
pub open spec fn member_views(members: Vec<(String, Value)>, n: int) -> Seq<(Seq<char>, JsonValue)>
    decreases members, n,
{
    if 0 < n <= members.len() {
        member_views(members, n - 1).push((members[n - 1].0@, members[n - 1].1@))
    } else {
        Seq::empty()
    }
}

/// The views of the first `n` items are as many, and each is the view of
/// its item.
pub proof fn lemma_item_views(items: Vec<Value>, n: int)
    requires
        0 <= n <= items.len(),
    ensures
        item_views(items, n).len() == n,
        forall|k: int| 0 <= k < n ==> #[trigger] item_views(items, n)[k] == items[k]@,
    decreases n,
{
    if n > 0 {
        lemma_item_views(items, n - 1);
        assert(item_views(items, n) == item_views(items, n - 1).push(items[n - 1]@));
    }
}

/// The views of the first `n` members are as many, and each is the view
/// of its member.
pub proof fn lemma_member_views(members: Vec<(String, Value)>, n: int)
    requires
        0 <= n <= members.len(),
    ensures
        member_views(members, n).len() == n,
        forall|k: int|
            0 <= k < n ==> #[trigger] member_views(members, n)[k] == (
                members[k].0@,
                members[k].1@,
            ),
    decreases n,
{
    if n > 0 {
        lemma_member_views(members, n - 1);
        assert(member_views(members, n) == member_views(members, n - 1).push(
            (members[n - 1].0@, members[n - 1].1@),
        ));
    }
}

/// The items of an array, one by one.
pub proof fn lemma_array_view(v: Value)
    requires
        v is Array,
    ensures
        v@ is Array,
        v@->Array_0.len() == v->Array_0.len(),
        forall|k: int| 0 <= k < v->Array_0.len() ==> #[trigger] v@->Array_0[k] == v->Array_0[k]@,
{
    lemma_item_views(v->Array_0, v->Array_0.len() as int);
}

/// The members of an object, one by one.
pub proof fn lemma_object_view(v: Value)
    requires
        v is Object,
    ensures
        v@ is Object,
        v@->Object_0.len() == v->Object_0.len(),
        forall|k: int|
            0 <= k < v->Object_0.len() ==> #[trigger] v@->Object_0[k] == (
                v->Object_0[k].0@,
                v->Object_0[k].1@,
            ),
{
    lemma_member_views(v->Object_0, v->Object_0.len() as int);
}

/// Appends the four bytes of a word.
pub(crate) fn push_word(out: &mut Vec<u8>, w: u32)
    ensures
        final(out)@ == old(out)@ + word_bytes(w as int),
{
    out.push((w / 0x100_0000) as u8);
    out.push((w / 0x1_0000 % 0x100) as u8);
    out.push((w / 0x100 % 0x100) as u8);
    out.push((w % 0x100) as u8);
    assert(out@ =~= old(out)@ + word_bytes(w as int));
}

/// Appends the eight bytes of a long word.
pub(crate) fn push_long(out: &mut Vec<u8>, w: u64)
    ensures
        final(out)@ == old(out)@ + long_bytes(w as int),
{
    push_word(out, (w / 0x1_0000_0000) as u32);
    push_word(out, (w % 0x1_0000_0000) as u32);
    assert(out@ =~= old(out)@ + long_bytes(w as int));
}

/// Appends the word whose upper four bits are `tag` and whose lower bits
/// are `n`.
pub(crate) fn push_tagged(out: &mut Vec<u8>, tag: u32, n: u32)
    requires
        tag < 16,
        n < LIMIT,
    ensures
        final(out)@ == old(out)@ + tagged(tag as int, n as int),
{
    push_word(out, tag * LIMIT + n);
}

/// Appends a copy of the bytes.
pub(crate) fn push_bytes(out: &mut Vec<u8>, bytes: &[u8])
    ensures
        final(out)@ == old(out)@ + bytes@,
{
    out.extend_from_slice(bytes);
}

impl Number {
    /// Appends the payload of the number.
    pub fn write_to_vec(&self, out: &mut Vec<u8>)
        ensures
            final(out)@ == old(out)@ + number_bytes(self@),
    {
        match *self {
            Number::Int64(v) => {
                out.push(0);
                if v >= 0 {
                    push_long(out, v as u64);
                } else {
                    push_long(out, u64::MAX - ((-(v + 1)) as u64));
                }
            },
            Number::UInt64(v) => {
                if v <= i64::MAX as u64 {
                    out.push(0);
                } else {
                    out.push(1);
                }
                push_long(out, v);
            },
            Number::Float64(bits) => {
                out.push(2);
                push_long(out, bits);
            },
        }
        assert(out@ =~= old(out)@ + number_bytes(self@));
    }
}

/// The error of a NaN, which the binary form does not hold.
fn not_a_number() -> (e: ErrorCode)
    ensures
        e.kind == ErrorKind::InvalidEncoding,
        e.message@ == "a NaN cannot be encoded"@,
        e.span is None,
{
    ErrorCode::invalid_encoding("a NaN cannot be encoded".to_owned())
}

/// The error of a value that is too large for the binary form.
fn too_large() -> (e: ErrorCode)
    ensures
        e.kind == ErrorKind::InvalidEncoding,
        e.message@ == "the value is too large to be encoded"@,
        e.span is None,
{
    ErrorCode::invalid_encoding("the value is too large to be encoded".to_owned())
}

impl Value {
    /// The type code in the entry of the value.
    pub fn type_code(&self) -> (r: u32)
        ensures
            r == code(self@),
    {
        match self {
            Value::Null => NULL_CODE,
            Value::Bool(false) => FALSE_CODE,
            Value::Bool(true) => TRUE_CODE,
            Value::Number(_) => NUMBER_CODE,
            Value::String(_) => STRING_CODE,
            Value::Array(_) | Value::Object(_) => CONTAINER_CODE,
        }
    }

    /// The payload of the value, where the value can be written.
    pub fn to_payload(&self) -> (r: Result<Vec<u8>, ErrorCode>)
        ensures
            match r {
                Ok(bytes) => fits(self@) && bytes@ == payload(self@),
                Err(e) => !fits(self@) && e.kind == ErrorKind::InvalidEncoding,
            },
        decreases self,
    {
        match self {
            Value::Null | Value::Bool(_) => Ok(Vec::new()),
            Value::Number(n) => {
                if let Number::Float64(bits) = n {
                    if nan(*bits) {
                        return Err(not_a_number());
                    }
                }
                let mut out = Vec::new();
                n.write_to_vec(&mut out);
                Ok(out)
            },
            Value::String(s) => {
                let bytes = s.as_str().as_bytes();
                if bytes.len() >= LIMIT as usize {
                    return Err(too_large());
                }
                let mut out = Vec::new();
                push_bytes(&mut out, bytes);
                Ok(out)
            },
            Value::Array(items) => {
                let n = items.len();
                proof {
                    lemma_array_view(*self);
                }
                if n >= LIMIT as usize {
                    return Err(too_large());
                }
                let ghost view = self@->Array_0;
                let mut head = Vec::new();
                let mut body = Vec::new();
                push_tagged(&mut head, ARRAY_KIND, n as u32);
                let mut i: usize = 0;
                while i < n
                    invariant
                        *self is Array,
                        self->Array_0 == *items,
                        self@ == JsonValue::Array(view),
                        n == items.len(),
                        n < LIMIT,
                        0 <= i <= n,
                        view.len() == n,
                        forall|k: int| 0 <= k < n ==> #[trigger] view[k] == items[k]@,
                        head@ == tagged(ARRAY_KIND as int, n as int) + entries(view, i as int),
                        body@ == payloads(view, i as int),
                        forall|k: int|
                            0 <= k < i ==> fits(#[trigger] view[k]) && payload(view[k]).len()
                                < LIMIT,
                    decreases n - i,
                {
                    let item = &items[i];
                    proof {
                        axiom_vec_index_decreases(*items, i as int);
                    }
                    let bytes = match item.to_payload() {
                        Ok(bytes) => bytes,
                        Err(e) => {
                            assert(!fits(view[i as int]));
                            return Err(e);
                        },
                    };
                    if bytes.len() >= LIMIT as usize {
                        assert(payload(view[i as int]).len() >= LIMIT);
                        return Err(too_large());
                    }
                    push_tagged(&mut head, item.type_code(), bytes.len() as u32);
                    push_bytes(&mut body, bytes.as_slice());
                    i += 1;
                    proof {
                        lemma_array_step(view, i as int);
                        assert(head@ =~= tagged(ARRAY_KIND as int, n as int) + entries(
                            view,
                            i as int,
                        ));
                    }
                }
                push_bytes(&mut head, body.as_slice());
                Ok(head)
            },
            Value::Object(members) => {
                let n = members.len();
                proof {
                    lemma_object_view(*self);
                }
                if n >= LIMIT as usize {
                    return Err(too_large());
                }
                let ghost view = self@->Object_0;
                let mut head = Vec::new();
                let mut value_entries = Vec::new();
                let mut keys = Vec::new();
                let mut values = Vec::new();
                push_tagged(&mut head, OBJECT_KIND, n as u32);
                let mut i: usize = 0;
                while i < n
                    invariant
                        *self is Object,
                        self->Object_0 == *members,
                        self@ == JsonValue::Object(view),
                        n == members.len(),
                        n < LIMIT,
                        0 <= i <= n,
                        view.len() == n,
                        forall|k: int|
                            0 <= k < n ==> #[trigger] view[k] == (members[k].0@, members[k].1@),
                        head@ == tagged(OBJECT_KIND as int, n as int) + key_entries(
                            view,
                            i as int,
                        ),
                        value_entries@ == member_entries(view, i as int),
                        keys@ == key_payloads(view, i as int),
                        values@ == member_payloads(view, i as int),
                        forall|k: int|
                            0 <= k < i ==> encode_utf8((#[trigger] view[k]).0).len() < LIMIT
                                && fits(view[k].1) && payload(view[k].1).len() < LIMIT,
                    decreases n - i,
                {
                    let key = members[i].0.as_str().as_bytes();
                    let value = &members[i].1;
                    assert(view[i as int] == (members[i as int].0@, members[i as int].1@));
                    if key.len() >= LIMIT as usize {
                        return Err(too_large());
                    }
                    proof {
                        axiom_vec_index_decreases(*members, i as int);
                    }
                    let bytes = match value.to_payload() {
                        Ok(bytes) => bytes,
                        Err(e) => {
                            return Err(e);
                        },
                    };
                    if bytes.len() >= LIMIT as usize {
                        return Err(too_large());
                    }
                    push_tagged(&mut head, STRING_CODE, key.len() as u32);
                    push_tagged(&mut value_entries, value.type_code(), bytes.len() as u32);
                    push_bytes(&mut keys, key);
                    push_bytes(&mut values, bytes.as_slice());
                    i += 1;
                    proof {
                        lemma_object_step(view, i as int);
                        assert(head@ =~= tagged(OBJECT_KIND as int, n as int) + key_entries(
                            view,
                            i as int,
                        ));
                    }
                }
                push_bytes(&mut head, value_entries.as_slice());
                push_bytes(&mut head, keys.as_slice());
                push_bytes(&mut head, values.as_slice());
                Ok(head)
            },
        }
    }

    /// Appends the buffer that holds the value. A value that cannot be
    /// written leaves `out` as it was.
    pub fn write_to_vec(&self, out: &mut Vec<u8>) -> (r: Result<(), ErrorCode>)
        ensures
            match r {
                Ok(()) => fits(self@) && final(out)@ == old(out)@ + encoding(self@),
                Err(e) => !fits(self@) && e.kind == ErrorKind::InvalidEncoding && final(out)@
                    == old(out)@,
            },
    {
        let bytes = match self.to_payload() {
            Ok(bytes) => bytes,
            Err(e) => {
                return Err(e);
            },
        };
        match self {
            Value::Array(_) | Value::Object(_) => {},
            _ => {
                assert(bytes@.len() < LIMIT);
                push_tagged(out, SCALAR_KIND, 1);
                push_tagged(out, self.type_code(), bytes.len() as u32);
            },
        }
        push_bytes(out, bytes.as_slice());
        assert(out@ =~= old(out)@ + encoding(self@));
        Ok(())
    }
}

} // verus!
