//! What the readers of the binary form find in the buffer of a value.
use crate::format::{
    array_item, child, code, count, encoding, entries, entry, fits, holds_array, holds_object,
    is_found_at, key_at, key_entries, key_payloads, keys_in_reach, keys_of, lemma_array_step,
    lemma_object_step, member_at, member_by_name, member_entries, member_payloads, payload,
    payload_start, payloads, same_ignoring_case, standalone, tagged, JsonValue, ARRAY_KIND, LIMIT,
    OBJECT_KIND, STRING_CODE,
};
use crate::layout::{
    assembled, blob, lemma_assembled_entry, lemma_assembled_header, lemma_assembled_lengths,
    lemma_assembled_payload, lemma_blob_grows, lemma_blob_prefix, lemma_parts_alike, lemma_rows_len,
    lemma_rows_prefix, rows, well_sized,
};
use vstd::prelude::*;
use vstd::utf8::{encode_utf8, encode_utf8_decode_utf8};

verus! {

/// The type codes of the items of an array.
pub open spec fn item_codes(items: Seq<JsonValue>) -> Seq<int> {
    Seq::new(items.len(), |i: int| code(items[i]))
}

/// The payloads of the items of an array.
pub open spec fn item_loads(items: Seq<JsonValue>) -> Seq<Seq<u8>> {
    Seq::new(items.len(), |i: int| payload(items[i]))
}

/// The type codes of the entries of an object: first those of the keys,
/// which are strings, then those of the values.
pub open spec fn member_codes(members: Seq<(Seq<char>, JsonValue)>) -> Seq<int> {
    Seq::new(
        2 * members.len(),
        |i: int|
            if i < members.len() {
                STRING_CODE as int
            } else {
                code(members[i - members.len()].1)
            },
    )
}

/// The payloads of an object: first the keys, then the values.
pub open spec fn member_loads(members: Seq<(Seq<char>, JsonValue)>) -> Seq<Seq<u8>> {
    Seq::new(
        2 * members.len(),
        |i: int|
            if i < members.len() {
                encode_utf8(members[i].0)
            } else {
                payload(members[i - members.len()].1)
            },
    )
}

proof fn lemma_array_parts(items: Seq<JsonValue>, n: int)
    requires
        0 <= n <= items.len(),
    ensures
        entries(items, n) == rows(item_codes(items), item_loads(items), n),
        payloads(items, n) == blob(item_loads(items), n),
    decreases n,
{
    if n > 0 {
        lemma_array_parts(items, n - 1);
        lemma_array_step(items, n);
        assert(entry(items[n - 1]) == tagged(
            code(items[n - 1]),
            payload(items[n - 1]).len() as int,
        ));
    }
}

proof fn lemma_key_parts(members: Seq<(Seq<char>, JsonValue)>, n: int)
    requires
        0 <= n <= members.len(),
    ensures
        key_entries(members, n) == rows(member_codes(members), member_loads(members), n),
        key_payloads(members, n) == blob(member_loads(members), n),
    decreases n,
{
    if n > 0 {
        lemma_key_parts(members, n - 1);
    }
}

proof fn lemma_member_parts(members: Seq<(Seq<char>, JsonValue)>, n: int)
    requires
        0 <= n <= members.len(),
    ensures
        key_entries(members, members.len() as int) + member_entries(members, n) == rows(
            member_codes(members),
            member_loads(members),
            members.len() + n,
        ),
        key_payloads(members, members.len() as int) + member_payloads(members, n) == blob(
            member_loads(members),
            members.len() + n,
        ),
    decreases n,
{
    let keys = members.len() as int;
    let codes = member_codes(members);
    let loads = member_loads(members);
    if n > 0 {
        lemma_member_parts(members, n - 1);
        lemma_object_step(members, n);
        assert(entry(members[n - 1].1) == tagged(
            code(members[n - 1].1),
            payload(members[n - 1].1).len() as int,
        ));
        assert(key_entries(members, keys) + member_entries(members, n) =~= rows(
            codes,
            loads,
            keys + n,
        ));
        assert(key_payloads(members, keys) + member_payloads(members, n) =~= blob(
            loads,
            keys + n,
        ));
    } else {
        lemma_key_parts(members, keys);
        assert(key_entries(members, keys) + member_entries(members, n) =~= rows(
            codes,
            loads,
            keys + n,
        ));
        assert(key_payloads(members, keys) + member_payloads(members, n) =~= blob(
            loads,
            keys + n,
        ));
    }
}

/// The buffer of an array is a header, the entries of the items and their
/// payloads.
pub proof fn lemma_array_assembled(items: Seq<JsonValue>)
    requires
        fits(JsonValue::Array(items)),
    ensures
        encoding(JsonValue::Array(items)) == assembled(
            ARRAY_KIND as int,
            items.len() as int,
            item_codes(items),
            item_loads(items),
        ),
        well_sized(item_codes(items), item_loads(items)),
{
    lemma_array_parts(items, items.len() as int);
    assert forall|k: int| 0 <= k < items.len() implies (#[trigger] item_loads(items)[k]).len()
        < LIMIT by {
        assert(fits(items[k]));
    }
}

/// The buffer of an object is a header, the entries of the keys and of
/// the values, the keys and the payloads of the values.
pub proof fn lemma_object_assembled(members: Seq<(Seq<char>, JsonValue)>)
    requires
        fits(JsonValue::Object(members)),
    ensures
        encoding(JsonValue::Object(members)) == assembled(
            OBJECT_KIND as int,
            members.len() as int,
            member_codes(members),
            member_loads(members),
        ),
        well_sized(member_codes(members), member_loads(members)),
{
    let n = members.len() as int;
    lemma_member_parts(members, n);
    assert(encoding(JsonValue::Object(members)) =~= assembled(
        OBJECT_KIND as int,
        n,
        member_codes(members),
        member_loads(members),
    ));
    assert forall|k: int| 0 <= k < 2 * n implies (#[trigger] member_loads(members)[k]).len()
        < LIMIT by {
        if k < n {
            assert(encode_utf8(members[k].0).len() < LIMIT);
        } else {
            assert(fits(members[k - n].1));
        }
    }
}

/// A child of the given entry and payload, taken out of its parent, is the
/// buffer of that child.
pub proof fn lemma_standalone(v: JsonValue)
    ensures
        standalone(entry(v), payload(v), code(v)) == encoding(v),
{
}

/// The header of the buffer of a null, boolean, number or string says that
/// it holds neither an array nor an object.
pub proof fn law_scalar_is_no_container(v: JsonValue)
    requires
        fits(v),
        !(v is Array),
        !(v is Object),
    ensures
        !holds_array(encoding(v)),
        !holds_object(encoding(v)),
{
    crate::decode::lemma_scalar_layout(v);
}

/// The header of the buffer of an array says that it holds an array and
/// how many items.
pub proof fn law_array_length(items: Seq<JsonValue>)
    requires
        fits(JsonValue::Array(items)),
    ensures
        holds_array(encoding(JsonValue::Array(items))),
        !holds_object(encoding(JsonValue::Array(items))),
        count(encoding(JsonValue::Array(items))) == items.len(),
{
    lemma_array_assembled(items);
    lemma_assembled_header(
        ARRAY_KIND as int,
        items.len() as int,
        item_codes(items),
        item_loads(items),
    );
}

/// The item at an index of the buffer of an array is the buffer of that
/// item; beyond the last item there is none.
pub proof fn law_array_item(items: Seq<JsonValue>, k: int)
    requires
        fits(JsonValue::Array(items)),
    ensures
        array_item(encoding(JsonValue::Array(items)), k) == if 0 <= k < items.len() {
            Some(encoding(items[k]))
        } else {
            None
        },
{
    let codes = item_codes(items);
    let loads = item_loads(items);
    let n = items.len() as int;
    law_array_length(items);
    lemma_array_assembled(items);
    if 0 <= k < n {
        lemma_assembled_entry(ARRAY_KIND as int, n, codes, loads, k);
        lemma_assembled_payload(ARRAY_KIND as int, n, codes, loads, k);
        lemma_standalone(items[k]);
    }
}

/// What the readers find in the buffer of an object: an object header with
/// the number of members, every key where the member stands, and every value
/// as the buffer of that value.
pub proof fn lemma_object_layout(members: Seq<(Seq<char>, JsonValue)>)
    requires
        fits(JsonValue::Object(members)),
    ensures
        keys_in_reach(encoding(JsonValue::Object(members))),
        !holds_array(encoding(JsonValue::Object(members))),
        count(encoding(JsonValue::Object(members))) == members.len(),
        forall|k: int|
            0 <= k < members.len() ==> #[trigger] key_at(
                encoding(JsonValue::Object(members)),
                k,
            ) == encode_utf8(members[k].0),
        forall|k: int|
            0 <= k < members.len() ==> #[trigger] member_at(
                encoding(JsonValue::Object(members)),
                k,
            ) == Some(encoding(members[k].1)),
{
    let codes = member_codes(members);
    let loads = member_loads(members);
    let n = members.len() as int;
    let buf = encoding(JsonValue::Object(members));
    lemma_object_assembled(members);
    lemma_assembled_header(OBJECT_KIND as int, n, codes, loads);
    lemma_assembled_lengths(OBJECT_KIND as int, n, codes, loads, n);
    lemma_blob_grows(loads, n, 2 * n);
    assert forall|k: int| 0 <= k < n implies #[trigger] key_at(buf, k) == encode_utf8(
        members[k].0,
    ) by {
        lemma_assembled_payload(OBJECT_KIND as int, n, codes, loads, k);
    }
    assert forall|k: int| 0 <= k < n implies #[trigger] member_at(buf, k) == Some(
        encoding(members[k].1),
    ) by {
        lemma_assembled_entry(OBJECT_KIND as int, n, codes, loads, n + k);
        lemma_assembled_payload(OBJECT_KIND as int, n, codes, loads, n + k);
        lemma_standalone(members[k].1);
    }
}

/// The names of the members of an object as strings.
pub open spec fn names_as_strings(members: Seq<(Seq<char>, JsonValue)>) -> Seq<JsonValue> {
    Seq::new(members.len(), |i: int| JsonValue::String(members[i].0))
}

/// The keys of the buffer of an object are the buffer of the array of the
/// names of its members, in stored order.
pub proof fn law_object_keys(members: Seq<(Seq<char>, JsonValue)>)
    requires
        fits(JsonValue::Object(members)),
    ensures
        fits(JsonValue::Array(names_as_strings(members))),
        keys_of(encoding(JsonValue::Object(members))) == Some(
            encoding(JsonValue::Array(names_as_strings(members))),
        ),
{
    let n = members.len() as int;
    let buf = encoding(JsonValue::Object(members));
    let codes = member_codes(members);
    let loads = member_loads(members);
    let names = names_as_strings(members);
    assert(JsonValue::Array(names)->Array_0 == names);
    assert forall|i: int| 0 <= i < names.len() implies fits(#[trigger] names[i]) && payload(
        names[i],
    ).len() < LIMIT by {
        assert(encode_utf8(members[i].0).len() < LIMIT);
    }
    lemma_object_layout(members);
    lemma_object_assembled(members);
    lemma_array_assembled(names);
    lemma_assembled_lengths(OBJECT_KIND as int, n, codes, loads, n);
    lemma_rows_len(codes, loads, 2 * n);
    lemma_rows_prefix(codes, loads, n, 2 * n);
    lemma_blob_prefix(loads, n, 2 * n);
    lemma_parts_alike(codes, loads, item_codes(names), item_loads(names), n);
    crate::layout::lemma_word(OBJECT_KIND * LIMIT + n);
    let head = tagged(OBJECT_KIND as int, n);
    let all_rows = rows(codes, loads, 2 * n);
    let all_loads = blob(loads, 2 * n);
    assert(buf == head + all_rows + all_loads);
    assert(buf.subrange(4, 4 + 4 * n) =~= all_rows.subrange(0, 4 * n));
    assert(buf.subrange(4 + 8 * n, payload_start(buf, 2 * n, n)) =~= all_loads.subrange(
        0,
        blob(loads, n).len() as int,
    ));
}

/// Two texts with the same bytes are the same text.
pub proof fn lemma_same_text(a: Seq<char>, b: Seq<char>)
    requires
        encode_utf8(a) == encode_utf8(b),
    ensures
        a == b,
{
    encode_utf8_decode_utf8(a);
    encode_utf8_decode_utf8(b);
}

/// Where several members of an object have the name that is looked up, the
/// lookup finds the value of the last of them, whether case is ignored or
/// not.
pub proof fn law_lookup_finds_last(
    members: Seq<(Seq<char>, JsonValue)>,
    name: Seq<char>,
    ignore_case: bool,
    k: int,
)
    requires
        fits(JsonValue::Object(members)),
        0 <= k < members.len(),
        members[k].0 == name,
        forall|j: int| k < j < members.len() ==> (#[trigger] members[j]).0 != name,
    ensures
        member_by_name(encoding(JsonValue::Object(members)), encode_utf8(name), ignore_case)
            == Some(encoding(members[k].1)),
{
    let buf = encoding(JsonValue::Object(members));
    let wanted = encode_utf8(name);
    lemma_object_layout(members);
    assert forall|j: int| k < j < members.len() implies #[trigger] key_at(buf, j) != wanted by {
        if key_at(buf, j) == wanted {
            lemma_same_text(members[j].0, name);
        }
    }
    assert(is_found_at(buf, wanted, ignore_case, k));
    let found = choose|i: int| is_found_at(buf, wanted, ignore_case, i);
    assert(key_at(buf, k) == wanted);
    assert(found == k);
}

/// Where no member of an object has the name that is looked up and case is
/// ignored, the lookup finds the value of the first member whose name is
/// equal but for the case of ASCII letters.
pub proof fn law_lookup_ignoring_case_finds_first(
    members: Seq<(Seq<char>, JsonValue)>,
    name: Seq<char>,
    k: int,
)
    requires
        fits(JsonValue::Object(members)),
        forall|j: int| 0 <= j < members.len() ==> (#[trigger] members[j]).0 != name,
        0 <= k < members.len(),
        same_ignoring_case(encode_utf8(members[k].0), encode_utf8(name)),
        forall|j: int|
            0 <= j < k ==> !same_ignoring_case(
                encode_utf8((#[trigger] members[j]).0),
                encode_utf8(name),
            ),
    ensures
        member_by_name(encoding(JsonValue::Object(members)), encode_utf8(name), true) == Some(
            encoding(members[k].1),
        ),
{
    let buf = encoding(JsonValue::Object(members));
    let wanted = encode_utf8(name);
    lemma_object_layout(members);
    assert forall|j: int| 0 <= j < members.len() implies #[trigger] key_at(buf, j) != wanted by {
        if key_at(buf, j) == wanted {
            lemma_same_text(members[j].0, name);
        }
    }
    assert forall|j: int| 0 <= j < k implies !same_ignoring_case(
        #[trigger] key_at(buf, j),
        wanted,
    ) by {
        assert(key_at(buf, j) == encode_utf8(members[j].0));
    }
    assert(is_found_at(buf, wanted, true, k));
    let found = choose|i: int| is_found_at(buf, wanted, true, i);
    assert(key_at(buf, found) == encode_utf8(members[found].0));
    assert(found == k);
}

/// The name of a member is the name that is looked up: the same text, or,
/// where case is ignored, the same but for the case of ASCII letters.
pub open spec fn is_named(key: Seq<char>, name: Seq<char>, ignore_case: bool) -> bool {
    if ignore_case {
        same_ignoring_case(encode_utf8(key), encode_utf8(name))
    } else {
        key == name
    }
}

/// A lookup finds a member exactly where some member has the name that is
/// looked up.
pub proof fn law_lookup_succeeds(
    members: Seq<(Seq<char>, JsonValue)>,
    name: Seq<char>,
    ignore_case: bool,
)
    requires
        fits(JsonValue::Object(members)),
    ensures
        member_by_name(
            encoding(JsonValue::Object(members)),
            encode_utf8(name),
            ignore_case,
        ) is Some <==> exists|k: int|
            0 <= k < members.len() && #[trigger] is_named(members[k].0, name, ignore_case),
{
    let buf = encoding(JsonValue::Object(members));
    let wanted = encode_utf8(name);
    let n = members.len() as int;
    lemma_object_layout(members);
    if member_by_name(buf, wanted, ignore_case) is Some {
        let found = choose|i: int| is_found_at(buf, wanted, ignore_case, i);
        assert(is_found_at(buf, wanted, ignore_case, found));
        assert(key_at(buf, found) == encode_utf8(members[found].0));
        if key_at(buf, found) == wanted {
            lemma_same_text(members[found].0, name);
        }
        assert(is_named(members[found].0, name, ignore_case));
    }
    if exists|k: int| 0 <= k < n && #[trigger] is_named(members[k].0, name, ignore_case) {
        let k = choose|k: int| 0 <= k < n && #[trigger] is_named(members[k].0, name, ignore_case);
        assert(key_at(buf, k) == encode_utf8(members[k].0));
        lemma_lookup_finds(buf, wanted, ignore_case, n, k);
        let found = choose|i: int| is_found_at(buf, wanted, ignore_case, i);
        assert(member_at(buf, found) == Some(encoding(members[found].1)));
    }
}

/// Where some key matches, the lookup finds a member.
proof fn lemma_lookup_finds(buf: Seq<u8>, wanted: Seq<u8>, ignore_case: bool, n: int, k: int)
    requires
        n == count(buf),
        0 <= k < n,
        key_at(buf, k) == wanted || (ignore_case && same_ignoring_case(key_at(buf, k), wanted)),
    ensures
        exists|i: int| is_found_at(buf, wanted, ignore_case, i),
{
    if exists|j: int| 0 <= j < n && key_at(buf, j) == wanted {
        let j = choose|j: int| 0 <= j < n && key_at(buf, j) == wanted;
        let last = lemma_last_key(buf, wanted, n, j);
        assert(is_found_at(buf, wanted, ignore_case, last));
    } else {
        let first = lemma_first_loose_key(buf, wanted, k);
        assert(is_found_at(buf, wanted, ignore_case, first));
    }
}

/// The last of the first `n` keys that is `wanted`, given that the key `j`
/// is.
proof fn lemma_last_key(buf: Seq<u8>, wanted: Seq<u8>, n: int, j: int) -> (last: int)
    requires
        0 <= j < n,
        key_at(buf, j) == wanted,
    ensures
        j <= last < n,
        key_at(buf, last) == wanted,
        forall|i: int| last < i < n ==> #[trigger] key_at(buf, i) != wanted,
    decreases n - j,
{
    if exists|i: int| j < i < n && key_at(buf, i) == wanted {
        let i = choose|i: int| j < i < n && key_at(buf, i) == wanted;
        lemma_last_key(buf, wanted, n, i)
    } else {
        j
    }
}

/// The first key that is `wanted` but for case, given that the key `k` is.
proof fn lemma_first_loose_key(buf: Seq<u8>, wanted: Seq<u8>, k: int) -> (first: int)
    requires
        0 <= k,
        same_ignoring_case(key_at(buf, k), wanted),
    ensures
        0 <= first <= k,
        same_ignoring_case(key_at(buf, first), wanted),
        forall|i: int| 0 <= i < first ==> !same_ignoring_case(#[trigger] key_at(buf, i), wanted),
    decreases k,
{
    if exists|i: int| 0 <= i < k && same_ignoring_case(key_at(buf, i), wanted) {
        let i = choose|i: int| 0 <= i < k && same_ignoring_case(key_at(buf, i), wanted);
        lemma_first_loose_key(buf, wanted, i)
    } else {
        k
    }
}

} // verus!
