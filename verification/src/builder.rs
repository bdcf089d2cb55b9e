//! Putting buffers together into the buffer of an array or an object.
use crate::decode::{is_whole, lemma_scalar_layout, read_scalar};
use crate::format::{
    code, count, encoding, entry_code, fits, holds_array, holds_object, holds_scalar, payload,
    payload_at, JsonValue, ARRAY_KIND, CONTAINER_CODE, LIMIT, OBJECT_KIND, STRING_CODE,
};
use crate::functions::read_header;
use crate::jsonpath::exception::{ErrorCode, ErrorKind};
use crate::jsonpath::parser::token::bytes_of;
use crate::laws::{
    item_codes, item_loads, lemma_array_assembled, lemma_object_assembled, member_codes,
    member_loads,
};
use crate::layout::{assembled, blob, lemma_assembled_header, rows};
use crate::value::{push_bytes, push_tagged};
use vstd::prelude::*;
use vstd::utf8::encode_utf8;

verus! {

/// What a buffer gives to a parent that takes it in: the type code for its
/// entry and its payload. A buffer with a scalar header gives the type code
/// and the payload of its one entry, so that no scalar header stands
/// inside an array or object; an array or object gives itself under the
/// type code of a container. A buffer that is neither, or that is too long
/// for an entry, gives nothing.
pub open spec fn lifted(child: Seq<u8>) -> Option<(int, Seq<u8>)> {
    if holds_scalar(child) {
        if count(child) == 1 && is_whole(child, 1) && entry_code(child, 0) < CONTAINER_CODE {
            Some((entry_code(child, 0), payload_at(child, 1, 0)))
        } else {
            None
        }
    } else if (holds_array(child) || holds_object(child)) && child.len() < LIMIT {
        Some((CONTAINER_CODE as int, child))
    } else {
        None
    }
}

/// The type code that a child gives.
pub open spec fn lifted_code(child: Seq<u8>) -> int {
    match lifted(child) {
        Some((code, _)) => code,
        None => 0,
    }
}

/// The payload that a child gives.
pub open spec fn lifted_load(child: Seq<u8>) -> Seq<u8> {
    match lifted(child) {
        Some((_, load)) => load,
        None => Seq::empty(),
    }
}

/// The type codes that the children give.
pub open spec fn lifted_codes(children: Seq<Seq<u8>>) -> Seq<int> {
    Seq::new(children.len(), |i: int| lifted_code(children[i]))
}

/// The payloads that the children give.
pub open spec fn lifted_loads(children: Seq<Seq<u8>>) -> Seq<Seq<u8>> {
    Seq::new(children.len(), |i: int| lifted_load(children[i]))
}

/// Every child gives something.
pub open spec fn all_lifted(children: Seq<Seq<u8>>) -> bool {
    forall|i: int| 0 <= i < children.len() ==> (#[trigger] lifted(children[i])) is Some
}

/// The buffer of the array of the given children, where there are not too
/// many and every child can be taken in.
pub open spec fn built_array(children: Seq<Seq<u8>>) -> Option<Seq<u8>> {
    if children.len() < LIMIT && all_lifted(children) {
        Some(
            assembled(
                ARRAY_KIND as int,
                children.len() as int,
                lifted_codes(children),
                lifted_loads(children),
            ),
        )
    } else {
        None
    }
}

/// The type codes of the entries of an object: strings for the keys, then
/// what the children give.
pub open spec fn keyed_codes(children: Seq<Seq<u8>>) -> Seq<int> {
    Seq::new(children.len(), |i: int| STRING_CODE as int) + lifted_codes(children)
}

/// The buffer of the object of the given keys and children, where there
/// are as many keys as children and not too many, no key is too long and
/// every child can be taken in.
pub open spec fn built_object(keys: Seq<Seq<u8>>, children: Seq<Seq<u8>>) -> Option<Seq<u8>> {
    if keys.len() == children.len() && children.len() < LIMIT && all_lifted(children) && (forall|
        i: int,
    | 0 <= i < keys.len() ==> (#[trigger] keys[i]).len() < LIMIT) {
        Some(
            assembled(
                OBJECT_KIND as int,
                children.len() as int,
                keyed_codes(children),
                keys + lifted_loads(children),
            ),
        )
    } else {
        None
    }
}

/// The bytes of the buffers.
pub open spec fn slices(items: Seq<&[u8]>) -> Seq<Seq<u8>> {
    Seq::new(items.len(), |i: int| items[i]@)
}

/// The bytes of the keys.
pub open spec fn pair_keys(pairs: Seq<(&str, &[u8])>) -> Seq<Seq<u8>> {
    Seq::new(pairs.len(), |i: int| bytes_of(pairs[i].0))
}

/// The bytes of the buffers.
pub open spec fn pair_slices(pairs: Seq<(&str, &[u8])>) -> Seq<Seq<u8>> {
    Seq::new(pairs.len(), |i: int| pairs[i].1@)
}

/// What the buffer gives to a parent that takes it in.
pub(crate) fn lift(child: &[u8]) -> (r: Option<(u32, &[u8])>)
    ensures
        match r {
            Some((code, load)) => lifted(child@) == Some((code as int, load@)) && code < 16
                && load@.len() < LIMIT,
            None => lifted(child@) is None,
        },
{
    match read_header(child) {
        Some((kind, _)) => if kind == crate::format::SCALAR_KIND {
            match read_scalar(child) {
                Some((code, load)) => {
                    proof {
                        crate::decode::lemma_payload_shorter(child@, 1, 0);
                    }
                    if code < CONTAINER_CODE {
                        Some((code, load))
                    } else {
                        None
                    }
                },
                None => None,
            }
        } else if (kind == ARRAY_KIND || kind == OBJECT_KIND) && child.len() < LIMIT as usize {
            Some((CONTAINER_CODE, child))
        } else {
            None
        },
        None => None,
    }
}

/// The error of a child that cannot be taken in.
fn not_buildable() -> (e: ErrorCode)
    ensures
        e.kind == ErrorKind::InvalidEncoding,
        e.message@ == "a child cannot be taken into the value"@,
        e.span is None,
{
    ErrorCode::invalid_encoding("a child cannot be taken into the value".to_owned())
}

/// Appends the buffer of the array whose items are held by the given
/// buffers. Where that cannot be done, `out` stays as it was.
pub fn build_array(items: Vec<&[u8]>, out: &mut Vec<u8>) -> (r: Result<(), ErrorCode>)
    ensures
        match r {
            Ok(()) => built_array(slices(items@)) matches Some(b) && final(out)@ == old(out)@ + b,
            Err(e) => built_array(slices(items@)) is None && final(out)@ == old(out)@ && e.kind
                == ErrorKind::InvalidEncoding,
        },
{
    let n = items.len();
    let ghost children = slices(items@);
    if n >= LIMIT as usize {
        return Err(not_buildable());
    }
    let mut head = Vec::new();
    let mut body = Vec::new();
    push_tagged(&mut head, ARRAY_KIND, n as u32);
    let mut k: usize = 0;
    while k < n
        invariant
            n == items.len(),
            n < LIMIT,
            children == slices(items@),
            0 <= k <= n,
            forall|i: int| 0 <= i < k ==> (#[trigger] lifted(children[i])) is Some,
            head@ == crate::format::tagged(ARRAY_KIND as int, n as int) + rows(
                lifted_codes(children),
                lifted_loads(children),
                k as int,
            ),
            body@ == blob(lifted_loads(children), k as int),
        decreases n - k,
    {
        assert(children[k as int] == items[k as int]@);
        match lift(items[k]) {
            Some((code, load)) => {
                push_tagged(&mut head, code, load.len() as u32);
                push_bytes(&mut body, load);
            },
            None => {
                return Err(not_buildable());
            },
        }
        k += 1;
        assert(head@ =~= crate::format::tagged(ARRAY_KIND as int, n as int) + rows(
            lifted_codes(children),
            lifted_loads(children),
            k as int,
        ));
    }
    push_bytes(out, head.as_slice());
    push_bytes(out, body.as_slice());
    assert(out@ =~= old(out)@ + built_array(children)->0);
    Ok(())
}

/// Appends the buffer of the object whose members have the given keys and
/// the values held by the given buffers, in the given order. Where that
/// cannot be done, `out` stays as it was.
pub fn build_object(members: Vec<(&str, &[u8])>, out: &mut Vec<u8>) -> (r: Result<(), ErrorCode>)
    ensures
        match r {
            Ok(()) => built_object(pair_keys(members@), pair_slices(members@)) matches Some(b)
                && final(out)@ == old(out)@ + b,
            Err(e) => built_object(pair_keys(members@), pair_slices(members@)) is None
                && final(out)@ == old(out)@ && e.kind == ErrorKind::InvalidEncoding,
        },
{
    let n = members.len();
    let ghost keys = pair_keys(members@);
    let ghost children = pair_slices(members@);
    let ghost codes = keyed_codes(children);
    let ghost loads = keys + lifted_loads(children);
    if n >= LIMIT as usize {
        return Err(not_buildable());
    }
    let mut head = Vec::new();
    let mut key_body = Vec::new();
    push_tagged(&mut head, OBJECT_KIND, n as u32);
    let mut k: usize = 0;
    while k < n
        invariant
            n == members.len(),
            n < LIMIT,
            keys == pair_keys(members@),
            children == pair_slices(members@),
            codes == keyed_codes(children),
            loads == keys + lifted_loads(children),
            0 <= k <= n,
            forall|i: int| 0 <= i < k ==> (#[trigger] keys[i]).len() < LIMIT,
            head@ == crate::format::tagged(OBJECT_KIND as int, n as int) + rows(
                codes,
                loads,
                k as int,
            ),
            key_body@ == blob(loads, k as int),
        decreases n - k,
    {
        let key = members[k].0.as_bytes();
        assert(keys[k as int] == key@);
        if key.len() >= LIMIT as usize {
            return Err(not_buildable());
        }
        push_tagged(&mut head, STRING_CODE, key.len() as u32);
        push_bytes(&mut key_body, key);
        k += 1;
        assert(head@ =~= crate::format::tagged(OBJECT_KIND as int, n as int) + rows(
            codes,
            loads,
            k as int,
        ));
    }
    let mut body = Vec::new();
    let mut k: usize = 0;
    while k < n
        invariant
            n == members.len(),
            n < LIMIT,
            keys == pair_keys(members@),
            children == pair_slices(members@),
            codes == keyed_codes(children),
            loads == keys + lifted_loads(children),
            0 <= k <= n,
            forall|i: int| 0 <= i < n ==> (#[trigger] keys[i]).len() < LIMIT,
            forall|i: int| 0 <= i < k ==> (#[trigger] lifted(children[i])) is Some,
            head@ == crate::format::tagged(OBJECT_KIND as int, n as int) + rows(
                codes,
                loads,
                n + k,
            ),
            key_body@ + body@ == blob(loads, n + k),
        decreases n - k,
    {
        assert(children[k as int] == members[k as int].1@);
        match lift(members[k].1) {
            Some((code, load)) => {
                push_tagged(&mut head, code, load.len() as u32);
                push_bytes(&mut body, load);
            },
            None => {
                return Err(not_buildable());
            },
        }
        k += 1;
        assert(head@ =~= crate::format::tagged(OBJECT_KIND as int, n as int) + rows(
            codes,
            loads,
            n + k,
        ));
        assert(key_body@ + body@ =~= blob(loads, n + k));
    }
    push_bytes(out, head.as_slice());
    push_bytes(out, key_body.as_slice());
    push_bytes(out, body.as_slice());
    assert(out@ =~= old(out)@ + built_object(keys, children)->0);
    Ok(())
}

/// What the buffer of a value gives to a parent: the type code and the
/// payload of the value.
pub proof fn lemma_lifted(v: JsonValue)
    requires
        fits(v),
        payload(v).len() < LIMIT,
    ensures
        lifted(encoding(v)) == Some((code(v), payload(v))),
{
    match v {
        JsonValue::Array(items) => {
            crate::laws::law_array_length(items);
            lemma_array_assembled(items);
            lemma_assembled_header(
                ARRAY_KIND as int,
                items.len() as int,
                item_codes(items),
                item_loads(items),
            );
        },
        JsonValue::Object(members) => {
            crate::laws::lemma_object_layout(members);
            lemma_object_assembled(members);
            lemma_assembled_header(
                OBJECT_KIND as int,
                members.len() as int,
                member_codes(members),
                member_loads(members),
            );
        },
        _ => {
            lemma_scalar_layout(v);
        },
    }
}

/// The buffers of the items of an array, put together, are the buffer of
/// the array.
pub proof fn law_build_array(items: Seq<JsonValue>)
    requires
        fits(JsonValue::Array(items)),
    ensures
        built_array(Seq::new(items.len(), |i: int| encoding(items[i]))) == Some(
            encoding(JsonValue::Array(items)),
        ),
{
    let children = Seq::new(items.len(), |i: int| encoding(items[i]));
    assert forall|i: int| 0 <= i < items.len() implies lifted(#[trigger] children[i]) == Some(
        (code(items[i]), payload(items[i])),
    ) by {
        assert(fits(items[i]));
        lemma_lifted(items[i]);
    }
    assert(lifted_codes(children) =~= item_codes(items));
    assert(lifted_loads(children) =~= item_loads(items));
    lemma_array_assembled(items);
}

/// The names of the members of an object and the buffers of their values,
/// put together, are the buffer of the object.
pub proof fn law_build_object(members: Seq<(Seq<char>, JsonValue)>)
    requires
        fits(JsonValue::Object(members)),
    ensures
        built_object(
            Seq::new(members.len(), |i: int| encode_utf8(members[i].0)),
            Seq::new(members.len(), |i: int| encoding(members[i].1)),
        ) == Some(encoding(JsonValue::Object(members))),
{
    let keys = Seq::new(members.len(), |i: int| encode_utf8(members[i].0));
    let children = Seq::new(members.len(), |i: int| encoding(members[i].1));
    assert forall|i: int| 0 <= i < members.len() implies lifted(#[trigger] children[i]) == Some(
        (code(members[i].1), payload(members[i].1)),
    ) by {
        assert(fits(members[i].1));
        lemma_lifted(members[i].1);
    }
    assert forall|i: int| 0 <= i < keys.len() implies (#[trigger] keys[i]).len() < LIMIT by {
        assert(encode_utf8(members[i].0).len() < LIMIT);
    }
    assert(keyed_codes(children) =~= member_codes(members));
    assert(keys + lifted_loads(children) =~= member_loads(members));
    lemma_object_assembled(members);
}

} // verus!
