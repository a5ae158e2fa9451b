//! The format-2 inverted-file index blobs: posting lists and the training sample.
use crate::bytes::{
    concat_all, le32_concat,
    append_bytes, copy_range, get_u16_le, get_u32_le, le16_at, le32_at, lemma_le_round_trips, push_u16_le,
    push_u32_le, starts_with,
};
use crate::digest::{hex_digit, push_hex_digit, sha256, sha256_digest};
use crate::text::{chars_of, str_eq};
use crate::ids::id_views;
use crate::model::{canonical_id_bytes, IdValue, PointId};
use crate::vectors::push_all_u32_le;
use crate::unicode::string_from_utf8;
use crate::Error;
use vstd::bytes::{spec_u16_to_le_bytes, spec_u32_to_le_bytes};
use vstd::prelude::*;
use vstd::utf8::valid_utf8;

verus! {

/// The magic of a posting list, `GTV2PST\0`.
pub open spec fn posting_magic() -> Seq<u8> {
    seq![0x47u8, 0x54u8, 0x56u8, 0x32u8, 0x50u8, 0x53u8, 0x54u8, 0x00u8]
}

/// The magic of a training sample, `GTV2SMP\0`.
pub open spec fn sample_magic() -> Seq<u8> {
    seq![0x47u8, 0x54u8, 0x56u8, 0x32u8, 0x53u8, 0x4du8, 0x50u8, 0x00u8]
}

fn index_magic(which: u8) -> (r: Vec<u8>)
    requires
        which < 2,
    ensures
        which == 0 ==> r@ == posting_magic(),
        which == 1 ==> r@ == sample_magic(),
{
    let r: Vec<u8> = if which == 0 {
        vec![0x47u8, 0x54u8, 0x56u8, 0x32u8, 0x50u8, 0x53u8, 0x54u8, 0x00u8]
    } else {
        vec![0x47u8, 0x54u8, 0x56u8, 0x32u8, 0x53u8, 0x4du8, 0x50u8, 0x00u8]
    };
    assert(which == 0 ==> r@ =~= posting_magic());
    assert(which == 1 ==> r@ =~= sample_magic());
    r
}

/// Strict lexicographic order on `(shard, row)` pairs.
pub open spec fn entry_lt(a: (u16, u32), b: (u16, u32)) -> bool {
    a.0 < b.0 || (a.0 == b.0 && a.1 < b.1)
}

/// Whether a posting list names valid shards in strictly increasing order.
pub open spec fn canonical_posting(p: Seq<(u16, u32)>) -> bool {
    &&& forall|k: int| 0 <= k < p.len() ==> (#[trigger] p[k]).0 < 64
    &&& forall|k: int| 0 < k < p.len() ==> entry_lt(p[k - 1], #[trigger] p[k])
}

/// The six bytes of one posting entry: the `u16` shard then the `u32` row.
pub open spec fn posting_entry_bytes(e: (u16, u32)) -> Seq<u8> {
    spec_u16_to_le_bytes(e.0) + spec_u32_to_le_bytes(e.1)
}

/// Concatenated posting entries.
pub open spec fn posting_entries_bytes(p: Seq<(u16, u32)>) -> Seq<u8>
    decreases p.len(),
{
    if p.len() == 0 {
        Seq::empty()
    } else {
        posting_entries_bytes(p.drop_last()) + posting_entry_bytes(p.last())
    }
}

/// The posting blob: magic, `u32` entry count, entries.
pub open spec fn posting_blob(p: Seq<(u16, u32)>) -> Seq<u8> {
    posting_magic() + spec_u32_to_le_bytes(p.len() as u32) + posting_entries_bytes(p)
}

/// Entry `k` of a posting blob.
pub open spec fn posting_entry(bytes: Seq<u8>, k: int) -> (u16, u32) {
    (le16_at(bytes, 12 + 6 * k), le32_at(bytes, 14 + 6 * k))
}

/// The entries of a posting blob.
pub open spec fn posting_entries(bytes: Seq<u8>) -> Seq<(u16, u32)> {
    Seq::new(le32_at(bytes, 8) as nat, |k: int| posting_entry(bytes, k))
}

/// The entries of a well-formed posting blob, or `None`.
pub open spec fn decoded_posting(bytes: Seq<u8>) -> Option<Seq<(u16, u32)>> {
    if bytes.len() >= 12 && bytes.take(8) == posting_magic() && bytes.len() == 12 + 6 * (le32_at(
        bytes,
        8,
    ) as int) && canonical_posting(posting_entries(bytes)) {
        Some(posting_entries(bytes))
    } else {
        None
    }
}

/// Writes a posting list; fails with `Invalid` when it has more than `u32::MAX` entries.
pub fn encode_posting(posting: &[(u16, u32)]) -> (r: Result<Vec<u8>, Error>)
    ensures
        r is Ok <==> posting@.len() <= u32::MAX,
        r matches Ok(bytes) ==> bytes@ == posting_blob(posting@),
        r matches Err(e) ==> e is Invalid,
{
    if posting.len() > 0xffff_ffffusize {
        return Err(Error::Invalid("posting exceeds u32 rows".to_string()));
    }
    let mut bytes = index_magic(0);
    push_u32_le(&mut bytes, posting.len() as u32);
    let ghost head = bytes@;
    let mut i: usize = 0;
    while i < posting.len()
        invariant
            i <= posting.len(),
            bytes@ == head + posting_entries_bytes(posting@.take(i as int)),
        decreases posting.len() - i,
    {
        let (shard, row) = posting[i];
        proof {
            assert(posting@.take(i + 1).drop_last() =~= posting@.take(i as int));
        }
        push_u16_le(&mut bytes, shard);
        push_u32_le(&mut bytes, row);
        i = i + 1;
    }
    assert(posting@.take(posting@.len() as int) =~= posting@);
    Ok(bytes)
}

/// Reads a posting list.
///
/// Succeeds exactly on well-formed blobs whose entries name shards below 64 in
/// strictly increasing `(shard, row)` order; other input fails with `Corrupt`.
pub fn decode_posting(bytes: &[u8]) -> (r: Result<Vec<(u16, u32)>, Error>)
    ensures
        r is Ok <==> decoded_posting(bytes@) is Some,
        r matches Ok(p) ==> p@ == decoded_posting(bytes@)->0,
        r matches Err(e) ==> e is Corrupt,
{
    let magic = index_magic(0);
    if bytes.len() < 12 || !starts_with(bytes, magic.as_slice()) {
        return Err(Error::Corrupt("invalid format-2 posting header".to_string()));
    }
    let count = get_u32_le(bytes, 8);
    if (bytes.len() as u64) != 12 + 6 * (count as u64) {
        return Err(Error::Corrupt("format-2 posting byte length does not match header".to_string()));
    }
    let ghost entries = posting_entries(bytes@);
    let mut posting: Vec<(u16, u32)> = Vec::new();
    let mut k: usize = 0;
    while k < count as usize
        invariant
            entries == posting_entries(bytes@),
            count == le32_at(bytes@, 8),
            bytes.len() == 12 + 6 * count,
            k <= count,
            posting@ == entries.take(k as int),
            canonical_posting(posting@),
        decreases count - k,
    {
        let shard = get_u16_le(bytes, 12 + 6 * k);
        let row = get_u32_le(bytes, 14 + 6 * k);
        assert(entries[k as int] == (shard, row));
        if shard >= 64 || (k > 0 && {
            let (ps, pr) = posting[k - 1];
            !(ps < shard || (ps == shard && pr < row))
        }) {
            assert(!canonical_posting(entries)) by {
                if shard >= 64 {
                    assert(entries[k as int].0 >= 64);
                } else {
                    assert(entries[k - 1] == posting@[k - 1]);
                    assert(!entry_lt(entries[k - 1], entries[k as int]));
                }
            }
            return Err(Error::Corrupt("non-canonical format-2 posting order".to_string()));
        }
        posting.push((shard, row));
        assert(entries.take(k + 1) =~= entries.take(k as int).push((shard, row)));
        k = k + 1;
    }
    assert(entries.take(count as int) =~= entries);
    Ok(posting)
}

/// Posting round trip: a canonical posting list is read back from its blob.
pub proof fn lemma_posting_round_trip(p: Seq<(u16, u32)>)
    requires
        canonical_posting(p),
        p.len() <= u32::MAX,
    ensures
        decoded_posting(posting_blob(p)) == Some(p),
{
    lemma_le_round_trips();
    let bytes = posting_blob(p);
    let body = posting_entries_bytes(p);
    lemma_posting_entries_len(p);
    assert(bytes.take(8) =~= posting_magic());
    assert(bytes.subrange(8, 12) =~= spec_u32_to_le_bytes(p.len() as u32));
    assert forall|k: int| 0 <= k < p.len() implies #[trigger] posting_entry(bytes, k) == p[k] by {
        lemma_posting_entry_at(p, k);
        assert(bytes.subrange(12 + 6 * k, 12 + 6 * k + 2) =~= body.subrange(6 * k, 6 * k + 2));
        assert(bytes.subrange(14 + 6 * k, 14 + 6 * k + 4) =~= body.subrange(6 * k + 2, 6 * k + 6));
    }
    assert(posting_entries(bytes) =~= p);
}

proof fn lemma_posting_entries_len(p: Seq<(u16, u32)>)
    ensures
        posting_entries_bytes(p).len() == 6 * p.len(),
    decreases p.len(),
{
    lemma_le_round_trips();
    if p.len() > 0 {
        lemma_posting_entries_len(p.drop_last());
    }
}

proof fn lemma_posting_entry_at(p: Seq<(u16, u32)>, k: int)
    requires
        0 <= k < p.len(),
    ensures
        posting_entries_bytes(p).subrange(6 * k, 6 * k + 2) == spec_u16_to_le_bytes(p[k].0),
        posting_entries_bytes(p).subrange(6 * k + 2, 6 * k + 6) == spec_u32_to_le_bytes(p[k].1),
    decreases p.len(),
{
    lemma_le_round_trips();
    lemma_posting_entries_len(p.drop_last());
    let init = posting_entries_bytes(p.drop_last());
    let last = posting_entry_bytes(p.last());
    if k == p.len() - 1 {
        assert((init + last).subrange(6 * k, 6 * k + 2) =~= spec_u16_to_le_bytes(p[k].0));
        assert((init + last).subrange(6 * k + 2, 6 * k + 6) =~= spec_u32_to_le_bytes(p[k].1));
    } else {
        lemma_posting_entry_at(p.drop_last(), k);
        assert((init + last).subrange(6 * k, 6 * k + 2) =~= init.subrange(6 * k, 6 * k + 2));
        assert((init + last).subrange(6 * k + 2, 6 * k + 6) =~= init.subrange(
            6 * k + 2,
            6 * k + 6,
        ));
    }
}

/// Reads a little-endian `u32` field; fails with `Corrupt` unless it is exactly four bytes.
pub fn read_u32(bytes: &[u8]) -> (r: Result<u32, Error>)
    ensures
        r is Ok <==> bytes@.len() == 4,
        r matches Ok(v) ==> v == le32_at(bytes@, 0),
        r matches Err(e) ==> e is Corrupt,
{
    if bytes.len() != 4 {
        return Err(Error::Corrupt("truncated format-2 u32".to_string()));
    }
    Ok(get_u32_le(bytes, 0))
}

/// Whether `id` is the canonical bytes of a typed point ID: `s\0` and UTF-8
/// text, or `u\0` and eight bytes.
pub open spec fn sample_id_ok(id: Seq<u8>) -> bool {
    &&& id.len() >= 2
    &&& id[1] == 0
    &&& (id[0] == 0x73 && valid_utf8(id.skip(2))) || (id[0] == 0x75 && id.len() == 10)
}

/// Where the sample rows that start at `cursor` end after `n` rows, or `None`
/// if one of them is truncated or holds an invalid ID. A row is a `u32`
/// length, that many ID bytes and a 32-byte vector digest.
pub open spec fn sample_rows_end(bytes: Seq<u8>, cursor: int, n: nat) -> Option<int>
    decreases n,
{
    if n == 0 {
        Some(cursor)
    } else if cursor + 4 > bytes.len() {
        None
    } else {
        let length = le32_at(bytes, cursor) as int;
        let id_end = cursor + 4 + length;
        if id_end + 32 > bytes.len() || length < 2 || !sample_id_ok(
            bytes.subrange(cursor + 4, id_end),
        ) {
            None
        } else {
            sample_rows_end(bytes, id_end + 32, (n - 1) as nat)
        }
    }
}

/// Whether `bytes` is a training sample of `expected` rows with nothing after them.
pub open spec fn sample_valid(bytes: Seq<u8>, expected: int) -> bool {
    &&& bytes.len() >= 12
    &&& bytes.take(8) == sample_magic()
    &&& le32_at(bytes, 8) == expected
    &&& sample_rows_end(bytes, 12, le32_at(bytes, 8) as nat) == Some(bytes.len() as int)
}

proof fn lemma_sample_rows_end_step(bytes: Seq<u8>, cursor: int, n: nat, k: nat)
    requires
        k < n,
    ensures
        sample_rows_end(bytes, cursor, k) matches Some(c) ==> sample_rows_end(bytes, c, (n - k) as nat)
            == sample_rows_end(bytes, cursor, n),
        sample_rows_end(bytes, cursor, k) is None ==> sample_rows_end(bytes, cursor, n) is None,
    decreases k,
{
    if k > 0 {
        if cursor + 4 <= bytes.len() {
            let length = le32_at(bytes, cursor) as int;
            let id_end = cursor + 4 + length;
            lemma_sample_rows_end_step(bytes, id_end + 32, (n - 1) as nat, (k - 1) as nat);
        }
    }
}

fn sample_id_valid(bytes: &[u8], start: usize, end: usize) -> (r: bool)
    requires
        start + 2 <= end <= bytes@.len(),
    ensures
        r == sample_id_ok(bytes@.subrange(start as int, end as int)),
{
    let ghost id = bytes@.subrange(start as int, end as int);
    if bytes[start + 1] != 0 {
        return false;
    }
    if bytes[start] == 0x73 {
        let text = copy_range(bytes, start + 2, end);
        assert(text@ =~= id.skip(2));
        string_from_utf8(text).is_some()
    } else {
        bytes[start] == 0x75 && end - start == 10
    }
}

/// Checks a training sample against the expected row count.
///
/// Succeeds exactly when the blob has the sample magic, a count equal to
/// `expected_count`, that many well-formed rows, and no trailing bytes;
/// anything else fails with `Corrupt`.
pub fn validate_sample(bytes: &[u8], expected_count: usize) -> (r: Result<(), Error>)
    ensures
        r is Ok <==> sample_valid(bytes@, expected_count as int),
        r matches Err(e) ==> e is Corrupt,
{
    let magic = index_magic(1);
    if bytes.len() < 12 || !starts_with(bytes, magic.as_slice()) {
        return Err(Error::Corrupt("invalid format-2 sample header".to_string()));
    }
    let count = get_u32_le(bytes, 8);
    if count as usize != expected_count {
        return Err(Error::Corrupt("format-2 sample count does not match metadata".to_string()));
    }
    let ghost total = count as nat;
    let mut cursor: usize = 12;
    let mut row: u32 = 0;
    while row < count
        invariant
            row <= count,
            total == count as nat,
            count == le32_at(bytes@, 8),
            count as usize == expected_count,
            12 <= cursor <= bytes@.len(),
            sample_rows_end(bytes@, 12, row as nat) == Some(cursor as int),
        decreases count - row,
    {
        proof {
            lemma_sample_rows_end_step(bytes@, 12, (row + 1) as nat, row as nat);
        }
        if bytes.len() - cursor < 4 {
            proof {
                lemma_sample_rows_end_step(bytes@, 12, total, row as nat);
                assert(sample_rows_end(bytes@, cursor as int, (total - row) as nat) is None);
            }
            return Err(Error::Corrupt("truncated format-2 sample ID length".to_string()));
        }
        let length = get_u32_le(bytes, cursor) as usize;
        let id_start = cursor + 4;
        if length > bytes.len() - id_start || bytes.len() - id_start - length < 32 || length < 2
            || !sample_id_valid(bytes, id_start, id_start + length) {
            proof {
                lemma_sample_rows_end_step(bytes@, 12, total, row as nat);
                assert(sample_rows_end(bytes@, cursor as int, (total - row) as nat) is None);
            }
            return Err(Error::Corrupt("invalid format-2 sample row".to_string()));
        }
        let ghost old_cursor = cursor as int;
        cursor = id_start + length + 32;
        assert(sample_rows_end(bytes@, cursor as int, 0) == Some(cursor as int));
        assert(sample_rows_end(bytes@, old_cursor, 1) == Some(cursor as int));
        row = row + 1;
    }
    if cursor != bytes.len() {
        return Err(Error::Corrupt("format-2 sample contains trailing bytes".to_string()));
    }
    Ok(())
}

/// Largest number of IVF centroids.
pub const MAX_CENTROIDS: usize = 4096;

/// The integer square root, rounded down.
pub open spec fn floor_sqrt(n: nat) -> nat
    decreases n,
{
    if n == 0 {
        0
    } else {
        let f = floor_sqrt((n - 1) as nat);
        if (f + 1) * (f + 1) <= n {
            f + 1
        } else {
            f
        }
    }
}

proof fn lemma_floor_sqrt(n: nat)
    ensures
        floor_sqrt(n) * floor_sqrt(n) <= n < (floor_sqrt(n) + 1) * (floor_sqrt(n) + 1),
    decreases n,
{
    if n > 0 {
        lemma_floor_sqrt((n - 1) as nat);
        let f = floor_sqrt((n - 1) as nat);
        assert((f + 1) * (f + 1) <= n || n < (f + 1) * (f + 1));
        if (f + 1) * (f + 1) <= n {
            let g = f + 1;
            assert(floor_sqrt(n) == g);
            assert(n < (g + 1) * (g + 1)) by (nonlinear_arith)
                requires
                    n - 1 < (f + 1) * (f + 1),
                    g == f + 1,
            ;
            assert(g * g <= n);
        } else {
            assert(floor_sqrt(n) == f);
            assert(f * f <= n);
            assert(n < (f + 1) * (f + 1));
        }
    } else {
        assert(floor_sqrt(n) == 0);
        assert(0 * 0 <= n < 1 * 1);
    }
}

proof fn lemma_sqrt_unique(n: nat, r: nat)
    requires
        r * r <= n < (r + 1) * (r + 1),
    ensures
        r == floor_sqrt(n),
{
    lemma_floor_sqrt(n);
    let f = floor_sqrt(n);
    if r < f {
        assert((r + 1) * (r + 1) <= f * f) by (nonlinear_arith)
            requires
                r + 1 <= f,
        ;
    } else if r > f {
        assert((f + 1) * (f + 1) <= r * r) by (nonlinear_arith)
            requires
                f + 1 <= r,
        ;
    }
}

/// The largest power of two not above `r`, for `1 <= r <= 4096`.
pub open spec fn pow2_floor(r: int) -> int {
    if r >= 4096 {
        4096
    } else if r >= 2048 {
        2048
    } else if r >= 1024 {
        1024
    } else if r >= 512 {
        512
    } else if r >= 256 {
        256
    } else if r >= 128 {
        128
    } else if r >= 64 {
        64
    } else if r >= 32 {
        32
    } else if r >= 16 {
        16
    } else if r >= 8 {
        8
    } else if r >= 4 {
        4
    } else if r >= 2 {
        2
    } else {
        1
    }
}

/// The number of IVF centroids for `n` points: `sqrt(n)` rounded to the
/// nearest integer (ties up), clamped to `1..=4096`, then rounded to the
/// nearer power of two (ties up, capped at 4096); zero for no points.
pub open spec fn centroids_for(n: nat) -> int {
    if n == 0 {
        0
    } else {
        let f = floor_sqrt(n);
        let below = n - f * f;
        let rounded = if below < 2 * f + 1 - below { f as int } else { f + 1int };
        let r = if rounded < 1 { 1 } else if rounded > 4096 { 4096 } else { rounded };
        let lower = pow2_floor(r);
        let upper = if 2 * lower > 4096 { 4096 } else { 2 * lower };
        if r - lower < upper - r { lower } else { upper }
    }
}

/// The square root of `n`, rounded down, as `usize::isqrt` computes it.
fn usize_isqrt(n: usize) -> (r: usize)
    ensures
        r * r <= n < (r + 1) * (r + 1),
{
    let m: u64 = n as u64;
    let mut lo: u64 = 0;
    let mut hi: u64 = if m < 0xFFFF_FFFF { m + 1 } else { 0x1_0000_0000 };
    assert(m < hi * hi) by (nonlinear_arith)
        requires
            hi == m + 1 || (hi == 0x1_0000_0000 && m <= 0xFFFF_FFFF_FFFF_FFFF),
    ;
    while hi - lo > 1
        invariant
            m == n,
            lo < hi <= 0x1_0000_0000,
            lo * lo <= m,
            m < hi * hi,
        decreases hi - lo,
    {
        let mid = lo + (hi - lo) / 2;
        assert(mid * mid < 0x1_0000_0000_0000_0000) by (nonlinear_arith)
            requires
                mid < 0x1_0000_0000,
        ;
        if mid * mid <= m {
            lo = mid;
        } else {
            hi = mid;
        }
    }
    assert(hi == lo + 1);
    assert(lo <= m) by (nonlinear_arith)
        requires
            lo * lo <= m,
    ;
    lo as usize
}

/// The number of IVF centroids trained for a collection of `points` points.
pub fn centroid_count(points: usize) -> (r: usize)
    ensures
        r == centroids_for(points as nat),
{
    if points == 0 {
        return 0;
    }
    let floor = usize_isqrt(points);
    proof {
        lemma_sqrt_unique(points as nat, floor as nat);
        if floor >= 3 {
            assert(2 * floor + 1 <= floor * floor) by (nonlinear_arith)
                requires
                    floor >= 3,
            ;
        }
        assert(points - floor * floor <= 2 * floor) by (nonlinear_arith)
            requires
                points < (floor + 1) * (floor + 1),
        ;
    }
    let lower_distance = points - floor * floor;
    let next_square_step = floor * 2 + 1;
    let rounded = if lower_distance < next_square_step - lower_distance {
        floor
    } else {
        floor + 1
    };
    let r = if rounded < 1 {
        1
    } else if rounded > MAX_CENTROIDS {
        MAX_CENTROIDS
    } else {
        rounded
    };
    let mut lower: usize = 1;
    while lower < 4096 && lower * 2 <= r
        invariant
            1 <= r <= 4096,
            1 <= lower <= r,
            lower <= 4096,
            lower == 1 || lower == 2 || lower == 4 || lower == 8 || lower == 16 || lower == 32
                || lower == 64 || lower == 128 || lower == 256 || lower == 512 || lower == 1024
                || lower == 2048 || lower == 4096,
        decreases 4096 - lower,
    {
        lower = lower * 2;
    }
    assert(lower == pow2_floor(r as int));
    let upper = if lower * 2 > MAX_CENTROIDS {
        MAX_CENTROIDS
    } else {
        lower * 2
    };
    if r - lower < upper - r {
        lower
    } else {
        upper
    }
}

/// Centroid counts are zero exactly for an empty collection, and otherwise a
/// power of two between 1 and 4096.
pub proof fn lemma_centroid_count_shape(n: nat)
    ensures
        (centroids_for(n) == 0) == (n == 0),
        n > 0 ==> {
            let c = centroids_for(n);
            c == 1 || c == 2 || c == 4 || c == 8 || c == 16 || c == 32 || c == 64 || c == 128
                || c == 256 || c == 512 || c == 1024 || c == 2048 || c == 4096
        },
{
}

/// The file name of shard `shard`: three lowercase hexadecimal digits, then `suffix`.
pub open spec fn shard_name(shard: u16, suffix: Seq<char>) -> Seq<char> {
    seq![
        hex_digit((shard / 256) as u8),
        hex_digit(((shard / 16) % 16) as u8),
        hex_digit((shard % 16) as u8),
    ] + suffix
}

/// The value of a lowercase hexadecimal digit.
fn hex_value(c: char) -> (r: Option<u8>)
    ensures
        r matches Some(v) ==> v < 16 && hex_digit(v) == c,
        r is None ==> forall|v: u8| v < 16 ==> hex_digit(v) != c,
{
    let code = c as u32;
    if 48 <= code && code <= 57 {
        Some((code - 48) as u8)
    } else if 97 <= code && code <= 102 {
        Some((code - 87) as u8)
    } else {
        None
    }
}

/// Reads a shard number from a canonical shard file name.
///
/// Succeeds exactly when `name` is the three-digit lowercase hexadecimal
/// form of a shard below 64 followed by `suffix`; anything else fails with
/// `Corrupt`.
pub fn parse_shard_name(name: &str, suffix: &str) -> (r: Result<u16, Error>)
    ensures
        r is Ok <==> exists|s: u16| s < 64 && name@ == shard_name(s, suffix@),
        r matches Ok(s) ==> s < 64 && name@ == shard_name(s, suffix@),
        r matches Err(e) ==> e is Corrupt,
{
    let c = chars_of(name);
    let x = chars_of(suffix);
    let ghost n = name@;
    if c.len() < 3 || c.len() - 3 != x.len() {
        assert forall|s: u16| s < 64 implies n != shard_name(s, suffix@) by {
            assert(shard_name(s, suffix@).len() == 3 + suffix@.len());
        }
        return Err(Error::Corrupt("invalid format-2 shard name".to_string()));
    }
    let mut k: usize = 0;
    assert(c@.len() == c.len());
    while k < x.len()
        invariant
            c@.len() <= usize::MAX,
            n == name@,
            c@ == n,
            x@ == suffix@,
            c@.len() == 3 + x@.len(),
            k <= x@.len(),
            forall|j: int| 0 <= j < k ==> c@[3 + j] == x@[j],
        decreases x.len() - k,
    {
        if c[3 + k] != x[k] {
            assert(n[3 + k] != suffix@[k as int]);
            assert forall|s: u16| s < 64 implies n != shard_name(s, suffix@) by {
                assert(shard_name(s, suffix@)[3 + k] == suffix@[k as int]);
            }
            return Err(Error::Corrupt("invalid format-2 shard name".to_string()));
        }
        k = k + 1;
    }
    let d0 = hex_value(c[0]);
    let d1 = hex_value(c[1]);
    let d2 = hex_value(c[2]);
    match (d0, d1, d2) {
        (Some(a), Some(b), Some(e)) => {
            if a == 0 && b < 4 {
                let shard: u16 = (b as u16) * 16 + (e as u16);
                assert(shard / 256 == 0 && (shard / 16) % 16 == b && shard % 16 == e);
                assert(n =~= shard_name(shard, suffix@));
                Ok(shard)
            } else {
                assert forall|s: u16| s < 64 implies n != shard_name(s, suffix@) by {
                    if n == shard_name(s, suffix@) {
                        assert(n[0] == hex_digit((s / 256) as u8));
                        assert(n[1] == hex_digit(((s / 16) % 16) as u8));
                    }
                }
                Err(Error::Corrupt("non-canonical format-2 shard name".to_string()))
            }
        },
        _ => {
            assert forall|s: u16| s < 64 implies n != shard_name(s, suffix@) by {
                if n == shard_name(s, suffix@) {
                    assert(n[0] == hex_digit((s / 256) as u8));
                    assert(n[1] == hex_digit(((s / 16) % 16) as u8));
                    assert(n[2] == hex_digit((s % 16) as u8));
                }
            }
            Err(Error::Corrupt("invalid format-2 shard name".to_string()))
        },
    }
}

/// One training-sample row: the ID's canonical bytes, prefixed by their
/// length, then the SHA-256 digest of the vector's little-endian components.
pub open spec fn sample_row(id: IdValue, vector: Seq<u32>) -> Seq<u8> {
    let cid = canonical_id_bytes(id);
    spec_u32_to_le_bytes(cid.len() as u32) + cid + sha256(le32_concat(vector))
}

/// The rows of a training sample.
pub open spec fn sample_rows(ids: Seq<IdValue>, vectors: Seq<Seq<u32>>) -> Seq<Seq<u8>> {
    Seq::new(ids.len(), |k: int| sample_row(ids[k], vectors[k]))
}

/// The training-sample blob: magic, `u32` row count, rows.
pub open spec fn sample_blob(ids: Seq<IdValue>, vectors: Seq<Seq<u32>>) -> Seq<u8> {
    sample_magic() + spec_u32_to_le_bytes(ids.len() as u32) + concat_all(sample_rows(ids, vectors))
}

/// Whether a training sample fits its `u32` fields.
pub open spec fn sample_fits(ids: Seq<IdValue>) -> bool {
    ids.len() <= u32::MAX && forall|k: int| 0 <= k < ids.len() ==> canonical_id_bytes(#[trigger] ids[k]).len() <= u32::MAX
}

/// Writes the training sample of the given points (their IDs and vectors, in
/// sample order).
///
/// Fails with `Invalid` when there are more than `u32::MAX` points or an ID
/// exceeds `u32::MAX` bytes.
pub fn encode_sample(ids: &[PointId], vectors: &[Vec<u32>]) -> (r: Result<Vec<u8>, Error>)
    requires
        ids@.len() == vectors@.len(),
    ensures
        r is Ok <==> sample_fits(id_views(ids@)),
        r matches Ok(bytes) ==> bytes@ == sample_blob(id_views(ids@), vectors@.map_values(|v: Vec<u32>| v@)),
        r matches Ok(bytes) ==> sample_valid(bytes@, ids@.len() as int),
        r matches Err(e) ==> e is Invalid,
{
    let ghost views = id_views(ids@);
    let ghost vs = vectors@.map_values(|v: Vec<u32>| v@);
    let ghost rows = sample_rows(views, vs);
    if ids.len() > 0xffff_ffffusize {
        return Err(Error::Invalid("training sample exceeds u32 rows".to_string()));
    }
    let mut bytes = index_magic(1);
    push_u32_le(&mut bytes, ids.len() as u32);
    let ghost head = bytes@;
    let mut k: usize = 0;
    assert(rows.take(0) =~= Seq::<Seq<u8>>::empty());
    while k < ids.len()
        invariant
            k <= ids@.len(),
            ids@.len() == vectors@.len(),
            views == id_views(ids@),
            vs == vectors@.map_values(|v: Vec<u32>| v@),
            rows == sample_rows(views, vs),
            bytes@ == head + concat_all(rows.take(k as int)),
            forall|j: int| 0 <= j < k ==> canonical_id_bytes(#[trigger] views[j]).len() <= u32::MAX,
            forall|j: int| 0 <= j < k ==> (#[trigger] sha256(le32_concat(vs[j]))).len() == 32,
        decreases ids.len() - k,
    {
        let id = ids[k].canonical_bytes();
        if id.len() > 0xffff_ffffusize {
            proof {
                assert(views[k as int] == ids@[k as int]@);
                assert(canonical_id_bytes(views[k as int]).len() > u32::MAX);
            }
            return Err(Error::Invalid("sample point ID exceeds u32 bytes".to_string()));
        }
        let ghost before = bytes@;
        push_u32_le(&mut bytes, id.len() as u32);
        append_bytes(&mut bytes, id.as_slice());
        let mut raw: Vec<u8> = Vec::new();
        push_all_u32_le(&mut raw, vectors[k].as_slice());
        let digest = sha256_digest(raw.as_slice());
        append_bytes(&mut bytes, digest.as_slice());
        proof {
            assert(raw@ =~= le32_concat(vs[k as int]));
            assert(rows[k as int] == sample_row(views[k as int], vs[k as int]));
            crate::bytes::lemma_concat_all_push(rows.take(k as int), rows[k as int]);
            assert(rows.take(k + 1) =~= rows.take(k as int).push(rows[k as int]));
            assert(bytes@ =~= head + concat_all(rows.take(k + 1)));
        }
        k = k + 1;
    }
    assert(rows.take(k as int) =~= rows);
    proof {
        lemma_sample_round_trip(views, vs);
    }
    Ok(bytes)
}

proof fn lemma_sample_id_ok(id: IdValue)
    ensures
        sample_id_ok(canonical_id_bytes(id)),
        canonical_id_bytes(id).len() >= 2,
{
    let cid = canonical_id_bytes(id);
    match id {
        IdValue::Text(t) => {
            assert(cid.skip(2) =~= vstd::utf8::encode_utf8(t));
            vstd::utf8::encode_utf8_valid_utf8(t);
        },
        IdValue::Number(v) => {
            vstd::bytes::lemma_auto_spec_u64_to_from_le_bytes();
        },
    }
}

proof fn lemma_sample_rows_from(ids: Seq<IdValue>, vs: Seq<Seq<u32>>, k: int)
    requires
        sample_fits(ids),
        ids.len() == vs.len(),
        forall|j: int| 0 <= j < vs.len() ==> (#[trigger] sha256(le32_concat(vs[j]))).len() == 32,
        0 <= k <= ids.len(),
    ensures
        sample_rows_end(
            sample_blob(ids, vs),
            12 + concat_all(sample_rows(ids, vs).take(k)).len() as int,
            (ids.len() - k) as nat,
        ) == Some(sample_blob(ids, vs).len() as int),
    decreases ids.len() - k,
{
    lemma_le_round_trips();
    let rows = sample_rows(ids, vs);
    let b = sample_blob(ids, vs);
    let body = concat_all(rows);
    assert(b.len() == 12 + body.len());
    let c: int = 12 + concat_all(rows.take(k)).len() as int;
    if k == ids.len() {
        assert(rows.take(k) =~= rows);
    } else {
        lemma_sample_rows_from(ids, vs, k + 1);
        crate::bytes::lemma_concat_all_part(rows, k);
        crate::bytes::lemma_concat_all_prefix(rows, k + 1);
        let row = rows[k];
        let cid = canonical_id_bytes(ids[k]);
        assert(row == sample_row(ids[k], vs[k]));
        assert(sha256(le32_concat(vs[k])).len() == 32);
        lemma_sample_id_ok(ids[k]);
        let len32 = spec_u32_to_le_bytes(cid.len() as u32);
        assert(row == len32 + cid + sha256(le32_concat(vs[k])));
        let end: int = c + row.len() as int;
        let n: int = cid.len() as int;
        assert(b.subrange(c, end) =~= row) by {
            assert(b.subrange(c, end) =~= body.subrange(c - 12, end - 12));
        }
        assert(b.subrange(c, c + 4) =~= len32) by {
            assert(b.subrange(c, c + 4) =~= row.subrange(0, 4));
        }
        assert(le32_at(b, c) == cid.len());
        assert(b.subrange(c + 4, c + 4 + n) =~= cid) by {
            assert(b.subrange(c + 4, c + 4 + n) =~= row.subrange(4, 4 + n));
        }
        assert(c + 4 + n + 32 == end);
    }
}

/// A training sample that was written is accepted by the reader: its blob is
/// a valid sample of as many rows as there were points.
pub proof fn lemma_sample_round_trip(ids: Seq<IdValue>, vs: Seq<Seq<u32>>)
    requires
        sample_fits(ids),
        ids.len() == vs.len(),
        forall|j: int| 0 <= j < vs.len() ==> (#[trigger] sha256(le32_concat(vs[j]))).len() == 32,
    ensures
        sample_valid(sample_blob(ids, vs), ids.len() as int),
{
    lemma_le_round_trips();
    let b = sample_blob(ids, vs);
    assert(b.take(8) =~= sample_magic());
    assert(b.subrange(8, 12) =~= spec_u32_to_le_bytes(ids.len() as u32));
    lemma_sample_rows_from(ids, vs, 0);
    assert(sample_rows(ids, vs).take(0) =~= Seq::<Seq<u8>>::empty());
}

/// The file name of the posting list of `centroid`: four lowercase
/// hexadecimal digits, then `.bin`.
pub open spec fn posting_name(centroid: u16) -> Seq<char> {
    seq![
        hex_digit((centroid / 4096) as u8),
        hex_digit(((centroid / 256) % 16) as u8),
        hex_digit(((centroid / 16) % 16) as u8),
        hex_digit((centroid % 16) as u8),
    ] + ".bin"@
}

/// Writes the file name of the posting list of `centroid`.
pub fn posting_file(centroid: u16) -> (r: String)
    ensures
        r@ == posting_name(centroid),
{
    let s = String::new();
    let s = push_hex_digit(s, (centroid / 4096) as u64);
    let s = push_hex_digit(s, ((centroid / 256) % 16) as u64);
    let s = push_hex_digit(s, ((centroid / 16) % 16) as u64);
    let s = push_hex_digit(s, (centroid % 16) as u64);
    let r = s.concat(".bin");
    assert(r@ =~= posting_name(centroid));
    r
}

/// Checks the entries of a postings tree: exactly one per centroid, named
/// by the centroid's number in order. Fails with `Corrupt` otherwise.
pub fn check_posting_names(names: &Vec<String>, centroids: usize) -> (r: Result<(), Error>)
    requires
        centroids <= 65536,
    ensures
        r is Ok <==> names@.len() == centroids && forall|k: int| 0 <= k < names@.len() ==> (#[trigger] names@[k])@ == posting_name(k as u16),
        r matches Err(e) ==> e is Corrupt,
{
    if names.len() != centroids {
        return Err(Error::Corrupt("format-2 posting count does not match metadata".to_string()));
    }
    let mut k: usize = 0;
    while k < names.len()
        invariant
            names@.len() == centroids <= 65536,
            k <= names@.len(),
            forall|j: int| 0 <= j < k ==> (#[trigger] names@[j])@ == posting_name(j as u16),
        decreases names.len() - k,
    {
        let expected = posting_file(k as u16);
        if !str_eq(names[k].as_str(), expected.as_str()) {
            return Err(Error::Corrupt("non-canonical format-2 posting name".to_string()));
        }
        k = k + 1;
    }
    Ok(())
}

} // verus!
