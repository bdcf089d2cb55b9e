//! Where the parts of a buffer lie: what the readers of the binary form
//! find in a buffer that was put together from a header, a row of entries
//! and the payloads of the entries.
use crate::format::{
    count, entry_code, entry_len, in_reach, kind, lengths, payload_at, tagged, word_at, word_bytes,
    LIMIT,
};
use vstd::prelude::*;

verus! {

/// The entries of the first `n` parts, of which the part `k` has the type
/// code `codes[k]` and the payload `loads[k]`.
pub open spec fn rows(codes: Seq<int>, loads: Seq<Seq<u8>>, n: int) -> Seq<u8>
    decreases n,
{
    if 0 < n <= loads.len() {
        rows(codes, loads, n - 1) + tagged(codes[n - 1], loads[n - 1].len() as int)
    } else {
        Seq::empty()
    }
}

/// The payloads of the first `n` parts, one behind the other.
pub open spec fn blob(loads: Seq<Seq<u8>>, n: int) -> Seq<u8>
    decreases n,
{
    if 0 < n <= loads.len() {
        blob(loads, n - 1) + loads[n - 1]
    } else {
        Seq::empty()
    }
}

/// Every part has a type code of four bits and a payload whose length fits
/// an entry.
pub open spec fn well_sized(codes: Seq<int>, loads: Seq<Seq<u8>>) -> bool {
    &&& codes.len() == loads.len()
    &&& forall|k: int| 0 <= k < codes.len() ==> 0 <= #[trigger] codes[k] < 16
    &&& forall|k: int| 0 <= k < loads.len() ==> (#[trigger] loads[k]).len() < LIMIT
}

/// A buffer of the given header and parts.
pub open spec fn assembled(tag: int, n: int, codes: Seq<int>, loads: Seq<Seq<u8>>) -> Seq<u8> {
    tagged(tag, n) + rows(codes, loads, loads.len() as int) + blob(loads, loads.len() as int)
}

/// A word is four bytes, and read back it is the same word.
pub proof fn lemma_word(w: int)
    requires
        0 <= w < 0x1_0000_0000,
    ensures
        word_bytes(w).len() == 4,
        word_at(word_bytes(w), 0) == w,
{
}

/// Where four bytes of a buffer are the bytes of a word, the word is read
/// there.
pub proof fn lemma_word_in(buf: Seq<u8>, at: int, w: int)
    requires
        0 <= w < 0x1_0000_0000,
        0 <= at,
        at + 4 <= buf.len(),
        buf.subrange(at, at + 4) == word_bytes(w),
    ensures
        word_at(buf, at) == w,
{
    lemma_word(w);
    let s = buf.subrange(at, at + 4);
    assert(s[0] == buf[at]);
    assert(s[1] == buf[at + 1]);
    assert(s[2] == buf[at + 2]);
    assert(s[3] == buf[at + 3]);
}

/// A tagged word read back gives its tag and its number.
pub proof fn lemma_tagged_in(buf: Seq<u8>, at: int, tag: int, n: int)
    requires
        0 <= tag < 16,
        0 <= n < LIMIT,
        0 <= at,
        at + 4 <= buf.len(),
        buf.subrange(at, at + 4) == tagged(tag, n),
    ensures
        word_at(buf, at) / (LIMIT as int) == tag,
        word_at(buf, at) % (LIMIT as int) == n,
{
    lemma_word_in(buf, at, tag * LIMIT + n);
}

/// The first `n` entries fill `4 * n` bytes.
pub proof fn lemma_rows_len(codes: Seq<int>, loads: Seq<Seq<u8>>, n: int)
    requires
        0 <= n <= loads.len(),
    ensures
        rows(codes, loads, n).len() == 4 * n,
    decreases n,
{
    if n > 0 {
        lemma_rows_len(codes, loads, n - 1);
    }
}

/// The entry `k` stands at `4 * k` in the row of the first `n` entries.
pub proof fn lemma_rows_row(codes: Seq<int>, loads: Seq<Seq<u8>>, n: int, k: int)
    requires
        0 <= k < n <= loads.len(),
    ensures
        rows(codes, loads, n).subrange(4 * k, 4 * k + 4) == tagged(
            codes[k],
            loads[k].len() as int,
        ),
    decreases n,
{
    lemma_rows_len(codes, loads, n - 1);
    lemma_rows_len(codes, loads, n);
    let last = tagged(codes[n - 1], loads[n - 1].len() as int);
    if k == n - 1 {
        assert(rows(codes, loads, n).subrange(4 * k, 4 * k + 4) =~= last);
    } else {
        lemma_rows_row(codes, loads, n - 1, k);
        assert(rows(codes, loads, n).subrange(4 * k, 4 * k + 4) =~= rows(
            codes,
            loads,
            n - 1,
        ).subrange(4 * k, 4 * k + 4));
    }
}

/// The payloads of more parts are no shorter.
pub proof fn lemma_blob_grows(loads: Seq<Seq<u8>>, i: int, j: int)
    requires
        0 <= i <= j <= loads.len(),
    ensures
        blob(loads, i).len() <= blob(loads, j).len(),
    decreases j,
{
    if i < j {
        lemma_blob_grows(loads, i, j - 1);
    }
}

/// The payload `k` stands behind the payloads before it.
pub proof fn lemma_blob_part(loads: Seq<Seq<u8>>, n: int, k: int)
    requires
        0 <= k < n <= loads.len(),
    ensures
        blob(loads, k).len() + loads[k].len() <= blob(loads, n).len(),
        blob(loads, n).subrange(
            blob(loads, k).len() as int,
            (blob(loads, k).len() + loads[k].len()) as int,
        ) == loads[k],
    decreases n,
{
    let at = blob(loads, k).len() as int;
    if k == n - 1 {
        assert(blob(loads, n).subrange(at, at + loads[k].len()) =~= loads[k]);
    } else {
        lemma_blob_part(loads, n - 1, k);
        assert(blob(loads, n).subrange(at, at + loads[k].len()) =~= blob(loads, n - 1).subrange(
            at,
            at + loads[k].len(),
        ));
    }
}

/// The entries of the first `n` parts stand first among the entries of
/// more parts.
pub proof fn lemma_rows_prefix(codes: Seq<int>, loads: Seq<Seq<u8>>, n: int, m: int)
    requires
        0 <= n <= m <= loads.len(),
    ensures
        rows(codes, loads, m).subrange(0, 4 * n) == rows(codes, loads, n),
    decreases m,
{
    lemma_rows_len(codes, loads, n);
    lemma_rows_len(codes, loads, m);
    if n < m {
        lemma_rows_prefix(codes, loads, n, m - 1);
        lemma_rows_len(codes, loads, m - 1);
        assert(rows(codes, loads, m).subrange(0, 4 * n) =~= rows(codes, loads, m - 1).subrange(
            0,
            4 * n,
        ));
    } else {
        assert(rows(codes, loads, m).subrange(0, 4 * n) =~= rows(codes, loads, n));
    }
}

/// The payloads of the first `n` parts stand first among the payloads of
/// more parts.
pub proof fn lemma_blob_prefix(loads: Seq<Seq<u8>>, n: int, m: int)
    requires
        0 <= n <= m <= loads.len(),
    ensures
        blob(loads, n).len() <= blob(loads, m).len(),
        blob(loads, m).subrange(0, blob(loads, n).len() as int) == blob(loads, n),
    decreases m,
{
    let at = blob(loads, n).len() as int;
    if n < m {
        lemma_blob_prefix(loads, n, m - 1);
        assert(blob(loads, m).subrange(0, at) =~= blob(loads, m - 1).subrange(0, at));
    } else {
        assert(blob(loads, m).subrange(0, at) =~= blob(loads, n));
    }
}

/// The entries and the payloads of the first `n` parts are those of any
/// parts that are the same up to `n`.
pub proof fn lemma_parts_alike(
    codes: Seq<int>,
    loads: Seq<Seq<u8>>,
    other_codes: Seq<int>,
    other_loads: Seq<Seq<u8>>,
    n: int,
)
    requires
        0 <= n <= loads.len(),
        n <= other_loads.len(),
        forall|k: int| 0 <= k < n ==> codes[k] == other_codes[k],
        forall|k: int| 0 <= k < n ==> loads[k] == other_loads[k],
    ensures
        rows(codes, loads, n) == rows(other_codes, other_loads, n),
        blob(loads, n) == blob(other_loads, n),
    decreases n,
{
    if n > 0 {
        lemma_parts_alike(codes, loads, other_codes, other_loads, n - 1);
    }
}

/// The header of an assembled buffer gives its tag and its number, and the
/// buffer is as long as its parts together.
pub proof fn lemma_assembled_header(tag: int, n: int, codes: Seq<int>, loads: Seq<Seq<u8>>)
    requires
        0 <= tag < 16,
        0 <= n < LIMIT,
    ensures
        assembled(tag, n, codes, loads).len() == 4 + 4 * loads.len() + blob(
            loads,
            loads.len() as int,
        ).len(),
        kind(assembled(tag, n, codes, loads)) == tag,
        count(assembled(tag, n, codes, loads)) == n,
{
    let buf = assembled(tag, n, codes, loads);
    lemma_word(tag * LIMIT + n);
    lemma_rows_len(codes, loads, loads.len() as int);
    assert(buf.subrange(0, 4) =~= tagged(tag, n));
    lemma_tagged_in(buf, 0, tag, n);
}

/// The entry `k` of an assembled buffer is that of the part `k`.
pub proof fn lemma_assembled_entry(
    tag: int,
    n: int,
    codes: Seq<int>,
    loads: Seq<Seq<u8>>,
    k: int,
)
    requires
        0 <= tag < 16,
        0 <= n < LIMIT,
        well_sized(codes, loads),
        0 <= k < loads.len(),
    ensures
        assembled(tag, n, codes, loads).subrange(4 + 4 * k, 8 + 4 * k) == tagged(
            codes[k],
            loads[k].len() as int,
        ),
        entry_code(assembled(tag, n, codes, loads), k) == codes[k],
        entry_len(assembled(tag, n, codes, loads), k) == loads[k].len(),
{
    let buf = assembled(tag, n, codes, loads);
    let total = loads.len() as int;
    lemma_assembled_header(tag, n, codes, loads);
    lemma_rows_len(codes, loads, total);
    lemma_rows_row(codes, loads, total, k);
    lemma_word(tag * LIMIT + n);
    assert(buf.subrange(4 + 4 * k, 8 + 4 * k) =~= rows(codes, loads, total).subrange(
        4 * k,
        4 * k + 4,
    ));
    lemma_tagged_in(buf, 4 + 4 * k, codes[k], loads[k].len() as int);
}

/// The lengths in the first `k` entries of an assembled buffer add up to
/// the length of the first `k` payloads.
pub proof fn lemma_assembled_lengths(
    tag: int,
    n: int,
    codes: Seq<int>,
    loads: Seq<Seq<u8>>,
    k: int,
)
    requires
        0 <= tag < 16,
        0 <= n < LIMIT,
        well_sized(codes, loads),
        0 <= k <= loads.len(),
    ensures
        lengths(assembled(tag, n, codes, loads), k) == blob(loads, k).len(),
    decreases k,
{
    if k > 0 {
        lemma_assembled_lengths(tag, n, codes, loads, k - 1);
        lemma_assembled_entry(tag, n, codes, loads, k - 1);
    }
}

/// The entry `k` of an assembled buffer can be read, and its payload is
/// that of the part `k`.
pub proof fn lemma_assembled_payload(
    tag: int,
    n: int,
    codes: Seq<int>,
    loads: Seq<Seq<u8>>,
    k: int,
)
    requires
        0 <= tag < 16,
        0 <= n < LIMIT,
        well_sized(codes, loads),
        0 <= k < loads.len(),
    ensures
        in_reach(assembled(tag, n, codes, loads), loads.len() as int, k),
        payload_at(assembled(tag, n, codes, loads), loads.len() as int, k) == loads[k],
{
    let buf = assembled(tag, n, codes, loads);
    let total = loads.len() as int;
    lemma_assembled_header(tag, n, codes, loads);
    lemma_assembled_entry(tag, n, codes, loads, k);
    lemma_assembled_lengths(tag, n, codes, loads, k);
    lemma_rows_len(codes, loads, total);
    lemma_word(tag * LIMIT + n);
    lemma_blob_part(loads, total, k);
    let at = blob(loads, k).len() as int;
    assert(payload_at(buf, total, k) =~= blob(loads, total).subrange(at, at + loads[k].len()));
}

} // verus!
