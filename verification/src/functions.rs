//! Reading a value in its binary form, in place.
use crate::format::{
    array_item, child, count, entry_len, holds_array, holds_object, in_reach, is_found_at, key_at,
    keys_in_reach, keys_of, kind, lemma_lengths_grow, lengths, lower, member_by_name, payload_end,
    payload_start, same_ignoring_case, word_at, ARRAY_KIND, CONTAINER_CODE, LIMIT, OBJECT_KIND,
    SCALAR_KIND,
};
use crate::jsonpath::parser::token::bytes_of;
use crate::value::{push_bytes, push_tagged};
use vstd::prelude::*;
use vstd::slice::slice_subrange;

verus! {

/// The bytes of an optional buffer.
pub open spec fn bytes_in(r: Option<Vec<u8>>) -> Option<Seq<u8>> {
    match r {
        Some(v) => Some(v@),
        None => None,
    }
}

/// The 32-bit word at `at`.
pub(crate) fn read_word(buf: &[u8], at: usize) -> (w: u32)
    requires
        at + 4 <= buf.len(),
    ensures
        w == word_at(buf@, at as int),
{
    (buf[at] as u32) * 0x100_0000 + (buf[at + 1] as u32) * 0x1_0000 + (buf[at + 2] as u32) * 0x100
        + (buf[at + 3] as u32)
}

/// What the header says the buffer holds and how many children it has, where
/// the buffer has a header.
pub(crate) fn read_header(buf: &[u8]) -> (r: Option<(u32, usize)>)
    ensures
        match r {
            Some((k, n)) => buf.len() >= 4 && k == kind(buf@) && n == count(buf@) && n < LIMIT,
            None => buf.len() < 4,
        },
{
    if buf.len() < 4 {
        return None;
    }
    let w = read_word(buf, 0);
    Some((w / LIMIT, (w % LIMIT) as usize))
}

/// Where the payload of the entry `k` starts in a buffer of `total` entries,
/// where all entries and that offset lie in the buffer. `k` may be `total`:
/// that is where the last payload ends.
pub(crate) fn offset_of(buf: &[u8], total: usize, k: usize) -> (r: Option<usize>)
    requires
        k <= total <= 2 * LIMIT,
    ensures
        match r {
            Some(start) => 4 + 4 * total <= buf.len() && start == payload_start(
                buf@,
                total as int,
                k as int,
            ) && start <= buf.len(),
            None => 4 + 4 * total > buf.len() || payload_start(buf@, total as int, k as int)
                > buf.len(),
        },
{
    if buf.len() < 4 || (buf.len() - 4) / 4 < total {
        return None;
    }
    let mut sum: u64 = 0;
    let mut i: usize = 0;
    while i < k
        invariant
            0 <= i <= k <= total <= 2 * LIMIT,
            4 + 4 * total <= buf.len(),
            sum == lengths(buf@, i as int),
            sum <= i * LIMIT,
        decreases k - i,
    {
        let w = read_word(buf, 4 + 4 * i);
        sum = sum + (w % LIMIT) as u64;
        i += 1;
        assert(lengths(buf@, i as int) == lengths(buf@, i - 1) + entry_len(buf@, i - 1));
    }
    let start: u64 = 4 + 4 * (total as u64) + sum;
    if start > buf.len() as u64 {
        return None;
    }
    Some(start as usize)
}

/// The span `start..end` of the payload of the entry `k` in a buffer of
/// `total` entries, where that entry can be read.
pub(crate) fn locate(buf: &[u8], total: usize, k: usize) -> (r: Option<(usize, usize)>)
    requires
        total <= 2 * LIMIT,
    ensures
        match r {
            Some((start, end)) => in_reach(buf@, total as int, k as int) && start == payload_start(
                buf@,
                total as int,
                k as int,
            ) && end == payload_end(buf@, total as int, k as int),
            None => !in_reach(buf@, total as int, k as int),
        },
{
    if k >= total {
        return None;
    }
    let start = match offset_of(buf, total, k) {
        Some(start) => start,
        None => {
            return None;
        },
    };
    let len = (read_word(buf, 4 + 4 * k) % LIMIT) as usize;
    if len > buf.len() - start {
        return None;
    }
    Some((start, start + len))
}

/// The child under the entry `k` of a buffer of `total` entries as a buffer
/// of its own.
pub(crate) fn child_at(buf: &[u8], total: usize, k: usize) -> (r: Option<Vec<u8>>)
    requires
        total <= 2 * LIMIT,
    ensures
        bytes_in(r) == child(buf@, total as int, k as int),
{
    let (start, end) = match locate(buf, total, k) {
        Some(span) => span,
        None => {
            return None;
        },
    };
    let code = read_word(buf, 4 + 4 * k) / LIMIT;
    if code > CONTAINER_CODE {
        return None;
    }
    let mut out = Vec::new();
    if code != CONTAINER_CODE {
        push_tagged(&mut out, SCALAR_KIND, 1);
        push_bytes(&mut out, slice_subrange(buf, 4 + 4 * k, 8 + 4 * k));
    }
    push_bytes(&mut out, slice_subrange(buf, start, end));
    assert(out@ =~= child(buf@, total as int, k as int)->0);
    Some(out)
}

/// Whether the buffer holds an array.
pub fn is_array(buf: &[u8]) -> (r: bool)
    ensures
        r == holds_array(buf@),
{
    match read_header(buf) {
        Some((k, _)) => k == ARRAY_KIND,
        None => false,
    }
}

/// Whether the buffer holds an object.
pub fn is_object(buf: &[u8]) -> (r: bool)
    ensures
        r == holds_object(buf@),
{
    match read_header(buf) {
        Some((k, _)) => k == OBJECT_KIND,
        None => false,
    }
}

/// The number of items of the array that the buffer holds; `None` where it
/// holds no array.
pub fn array_length(buf: &[u8]) -> (r: Option<usize>)
    ensures
        match r {
            Some(n) => holds_array(buf@) && n == count(buf@),
            None => !holds_array(buf@),
        },
{
    match read_header(buf) {
        Some((k, n)) => if k == ARRAY_KIND {
            Some(n)
        } else {
            None
        },
        None => None,
    }
}

/// The item at `index` of the array that the buffer holds, as a buffer of
/// its own; `None` where the buffer holds no array, where the array has no
/// such item, and where the item cannot be read.
pub fn get_by_index(buf: &[u8], index: i32) -> (r: Option<Vec<u8>>)
    ensures
        bytes_in(r) == array_item(buf@, index as int),
{
    match array_length(buf) {
        Some(n) => if index < 0 {
            None
        } else {
            child_at(buf, n, index as usize)
        },
        None => None,
    }
}

/// The items of the array that the buffer holds, each as a buffer of its
/// own; `None` where the buffer holds no array or an item cannot be read.
pub fn array_values(buf: &[u8]) -> (r: Option<Vec<Vec<u8>>>)
    ensures
        match r {
            Some(items) => {
                &&& holds_array(buf@)
                &&& items.len() == count(buf@)
                &&& forall|k: int|
                    0 <= k < items.len() ==> array_item(buf@, k) == Some((#[trigger] items[k])@)
            },
            None => !holds_array(buf@) || exists|k: int|
                0 <= k < count(buf@) && (#[trigger] array_item(buf@, k)) is None,
        },
{
    let n = match array_length(buf) {
        Some(n) => n,
        None => {
            return None;
        },
    };
    let mut items: Vec<Vec<u8>> = Vec::new();
    let mut k: usize = 0;
    while k < n
        invariant
            holds_array(buf@),
            n == count(buf@),
            n < LIMIT,
            0 <= k <= n,
            items.len() == k,
            forall|j: int| 0 <= j < k ==> array_item(buf@, j) == Some((#[trigger] items[j])@),
        decreases n - k,
    {
        match child_at(buf, n, k) {
            Some(item) => {
                items.push(item);
            },
            None => {
                assert(array_item(buf@, k as int) is None);
                return None;
            },
        }
        k += 1;
    }
    Some(items)
}

/// Whether the two texts are the same bytes.
pub(crate) fn same_bytes(a: &[u8], b: &[u8]) -> (r: bool)
    ensures
        r == (a@ == b@),
{
    if a.len() != b.len() {
        return false;
    }
    let mut i: usize = 0;
    while i < a.len()
        invariant
            a.len() == b.len(),
            0 <= i <= a.len(),
            forall|k: int| 0 <= k < i ==> a[k] == b[k],
        decreases a.len() - i,
    {
        if a[i] != b[i] {
            return false;
        }
        i += 1;
    }
    assert(a@ =~= b@);
    true
}

/// Whether the two texts are the same.
pub(crate) fn same_text(a: &str, b: &str) -> (r: bool)
    ensures
        r == (a@ == b@),
{
    proof {
        vstd::utf8::encode_utf8_decode_utf8(a@);
        vstd::utf8::encode_utf8_decode_utf8(b@);
    }
    same_bytes(a.as_bytes(), b.as_bytes())
}

fn to_lower(b: u8) -> (r: u8)
    ensures
        r == lower(b),
{
    if 0x41 <= b && b <= 0x5a {
        b + 32
    } else {
        b
    }
}

/// Whether the two texts are equal but for the case of their ASCII letters.
pub(crate) fn same_bytes_ignoring_case(a: &[u8], b: &[u8]) -> (r: bool)
    ensures
        r == same_ignoring_case(a@, b@),
{
    if a.len() != b.len() {
        return false;
    }
    let mut i: usize = 0;
    while i < a.len()
        invariant
            a.len() == b.len(),
            0 <= i <= a.len(),
            forall|k: int| 0 <= k < i ==> lower(#[trigger] a@[k]) == lower(b@[k]),
        decreases a.len() - i,
    {
        if to_lower(a[i]) != to_lower(b[i]) {
            return false;
        }
        i += 1;
    }
    true
}

/// The value of the member of the object that the buffer holds which a
/// lookup of `name` finds, as a buffer of its own.
///
/// The lookup finds the last member whose key is `name`. Where there is
/// none and `ignore_case` is set, it finds the first member whose key is
/// `name` but for the case of ASCII letters. The result is `None` where the
/// buffer holds no object, where a key cannot be read, where no member is
/// found, and where the value of the member cannot be read.
pub fn get_by_name(buf: &[u8], name: &str, ignore_case: bool) -> (r: Option<Vec<u8>>)
    ensures
        bytes_in(r) == member_by_name(buf@, bytes_of(name), ignore_case),
{
    let n = match read_header(buf) {
        Some((k, n)) => if k == OBJECT_KIND {
            n
        } else {
            return None;
        },
        None => {
            return None;
        },
    };
    let end = match offset_of(buf, 2 * n, n) {
        Some(end) => end,
        None => {
            return None;
        },
    };
    let wanted = name.as_bytes();
    proof {
        lemma_lengths_grow(buf@, 0, n as int);
    }
    let mut exact: Option<usize> = None;
    let mut loose: Option<usize> = None;
    let mut start: usize = 4 + 8 * n;
    let mut k: usize = 0;
    while k < n
        invariant
            keys_in_reach(buf@),
            n == count(buf@),
            n < LIMIT,
            wanted@ == bytes_of(name),
            0 <= k <= n,
            start == payload_start(buf@, 2 * n, k as int),
            end == payload_start(buf@, 2 * n, n as int),
            start <= end <= buf.len(),
            match exact {
                Some(e) => e < k && key_at(buf@, e as int) == wanted@ && forall|j: int|
                    e < j < k ==> #[trigger] key_at(buf@, j) != wanted@,
                None => forall|j: int| 0 <= j < k ==> #[trigger] key_at(buf@, j) != wanted@,
            },
            match loose {
                Some(l) => l < k && same_ignoring_case(key_at(buf@, l as int), wanted@)
                    && forall|j: int|
                    0 <= j < l ==> !same_ignoring_case(#[trigger] key_at(buf@, j), wanted@),
                None => forall|j: int|
                    0 <= j < k ==> !same_ignoring_case(#[trigger] key_at(buf@, j), wanted@),
            },
        decreases n - k,
    {
        let len = (read_word(buf, 4 + 4 * k) % LIMIT) as usize;
        proof {
            lemma_lengths_grow(buf@, k + 1, n as int);
            assert(lengths(buf@, k + 1) == lengths(buf@, k as int) + entry_len(buf@, k as int));
        }
        let key = slice_subrange(buf, start, start + len);
        assert(key@ == key_at(buf@, k as int));
        if same_bytes(key, wanted) {
            exact = Some(k);
        }
        if loose.is_none() && same_bytes_ignoring_case(key, wanted) {
            loose = Some(k);
        }
        start = start + len;
        k += 1;
    }
    let found = match exact {
        Some(e) => Some(e),
        None => if ignore_case {
            loose
        } else {
            None
        },
    };
    match found {
        Some(at) => {
            assert(is_found_at(buf@, wanted@, ignore_case, at as int));
            proof {
                let other = choose|k: int| is_found_at(buf@, wanted@, ignore_case, k);
                assert(other == at);
            }
            child_at(buf, 2 * n, n + at)
        },
        None => {
            assert(forall|k: int| !is_found_at(buf@, wanted@, ignore_case, k));
            None
        },
    }
}

/// The keys of the object that the buffer holds, as an array of strings in
/// stored order; `None` where the buffer holds no object or a key cannot be
/// read.
pub fn object_keys(buf: &[u8]) -> (r: Option<Vec<u8>>)
    ensures
        bytes_in(r) == keys_of(buf@),
{
    let n = match read_header(buf) {
        Some((k, n)) => if k == OBJECT_KIND {
            n
        } else {
            return None;
        },
        None => {
            return None;
        },
    };
    let end = match offset_of(buf, 2 * n, n) {
        Some(end) => end,
        None => {
            return None;
        },
    };
    proof {
        lemma_lengths_grow(buf@, 0, n as int);
    }
    let mut out = Vec::new();
    push_tagged(&mut out, ARRAY_KIND, n as u32);
    push_bytes(&mut out, slice_subrange(buf, 4, 4 + 4 * n));
    push_bytes(&mut out, slice_subrange(buf, 4 + 8 * n, end));
    Some(out)
}

} // verus!
