//! Offset-table framing used by the format-2 ID and payload shard blobs.
//!
//! A framed blob is an 8-byte magic, a little-endian `u32` row count `n`,
//! `n + 1` little-endian `u32` offsets into the body, then the body. The
//! offsets start at zero, end at the body length and never decrease; row `k`
//! is the body range between offsets `k` and `k + 1`.
use crate::bytes::{
    append_bytes, concat_all, get_u32_le, le32_at, le32_concat, lemma_concat_all_part,
    lemma_concat_all_prefix, lemma_le32_concat_at, lemma_le32_concat_len, lemma_le32_concat_push,
    lemma_le_round_trips, push_u32_le,
};
use crate::Error;
use vstd::bytes::spec_u32_to_le_bytes;
use vstd::prelude::*;

verus! {

/// The byte strings held by a sequence of byte vectors.
pub open spec fn byte_views(v: Seq<Vec<u8>>) -> Seq<Seq<u8>> {
    v.map_values(|x: Vec<u8>| x@)
}

/// Row count declared by a framed blob.
pub open spec fn framed_count(bytes: Seq<u8>) -> int {
    le32_at(bytes, 8) as int
}

/// First body byte of a framed blob.
pub open spec fn framed_body_start(bytes: Seq<u8>) -> int {
    12 + 4 * (framed_count(bytes) + 1)
}

/// The `k`-th offset of a framed blob.
pub open spec fn framed_offset(bytes: Seq<u8>, k: int) -> int {
    le32_at(bytes, 12 + 4 * k) as int
}

/// Whether `bytes` is a well-formed framed blob with the given magic.
pub open spec fn is_framed(bytes: Seq<u8>, magic: Seq<u8>) -> bool {
    &&& bytes.len() >= 16
    &&& bytes.take(8) == magic
    &&& framed_body_start(bytes) <= bytes.len()
    &&& framed_offset(bytes, 0) == 0
    &&& framed_offset(bytes, framed_count(bytes)) == bytes.len() - framed_body_start(bytes)
    &&& forall|k: int|
        0 <= k < framed_count(bytes) ==> #[trigger] framed_offset(bytes, k) <= framed_offset(
            bytes,
            k + 1,
        )
}

/// The rows of a well-formed framed blob.
pub open spec fn framed_rows(bytes: Seq<u8>) -> Seq<Seq<u8>> {
    Seq::new(
        framed_count(bytes) as nat,
        |k: int|
            bytes.subrange(
                framed_body_start(bytes) + framed_offset(bytes, k),
                framed_body_start(bytes) + framed_offset(bytes, k + 1),
            ),
    )
}

/// The offsets of a row sequence: the lengths of its prefixes.
pub open spec fn row_offsets(rows: Seq<Seq<u8>>) -> Seq<u32> {
    Seq::new((rows.len() + 1) as nat, |k: int| concat_all(rows.take(k)).len() as u32)
}

/// The framed blob holding `rows`.
pub open spec fn framed_blob(magic: Seq<u8>, rows: Seq<Seq<u8>>) -> Seq<u8> {
    magic + spec_u32_to_le_bytes(rows.len() as u32) + le32_concat(row_offsets(rows)) + concat_all(
        rows,
    )
}

/// Whether a row sequence fits the `u32` fields of a framed blob.
pub open spec fn rows_fit(rows: Seq<Seq<u8>>) -> bool {
    rows.len() <= u32::MAX && concat_all(rows).len() <= u32::MAX
}

/// Writes the offset-table header and body of a framed blob.
///
/// Fails with `Invalid` when `count` does not fit a `u32`.
pub fn encode_offsets(magic: &[u8], count: usize, offsets: &[u32], body: &[u8]) -> (r: Result<
    Vec<u8>,
    Error,
>)
    ensures
        count <= u32::MAX ==> (r matches Ok(bytes) && bytes@ == magic@ + spec_u32_to_le_bytes(
            count as u32,
        ) + le32_concat(offsets@) + body@),
        count > u32::MAX ==> r matches Err(Error::Invalid(_)),
{
    if count > 0xffff_ffffusize {
        return Err(Error::Invalid("format-2 shard exceeds u32 rows".to_string()));
    }
    let mut bytes: Vec<u8> = Vec::new();
    append_bytes(&mut bytes, magic);
    push_u32_le(&mut bytes, count as u32);
    let ghost head = bytes@;
    let mut i: usize = 0;
    while i < offsets.len()
        invariant
            i <= offsets.len(),
            bytes@ == head + le32_concat(offsets@.take(i as int)),
        decreases offsets.len() - i,
    {
        proof {
            lemma_le32_concat_push(offsets@.take(i as int), offsets@[i as int]);
            assert(offsets@.take(i + 1) =~= offsets@.take(i as int).push(offsets@[i as int]));
        }
        push_u32_le(&mut bytes, offsets[i]);
        i = i + 1;
    }
    assert(offsets@.take(offsets@.len() as int) =~= offsets@);
    append_bytes(&mut bytes, body);
    Ok(bytes)
}

/// Splits a framed blob into its rows.
///
/// Succeeds exactly on well-formed framed blobs with the given magic; any
/// other input fails with `Corrupt`.
pub fn decode_offsets(bytes: &[u8], magic: &[u8]) -> (r: Result<Vec<Vec<u8>>, Error>)
    requires
        magic@.len() == 8,
    ensures
        r is Ok <==> is_framed(bytes@, magic@),
        r matches Ok(rows) ==> byte_views(rows@) == framed_rows(bytes@),
        r matches Err(e) ==> e is Corrupt,
{
    if bytes.len() < 16 || !crate::bytes::starts_with(bytes, magic) {
        return Err(Error::Corrupt("invalid format-2 offset blob header".to_string()));
    }
    let count = get_u32_le(bytes, 8);
    let body_start_wide: u64 = 12 + 4 * (count as u64 + 1);
    if (bytes.len() as u64) < body_start_wide {
        return Err(Error::Corrupt("truncated format-2 offset table".to_string()));
    }
    let body_start = body_start_wide as usize;
    let body_len = bytes.len() - body_start;
    let mut offsets: Vec<usize> = Vec::new();
    let mut k: usize = 0;
    while k <= count as usize
        invariant
            count == framed_count(bytes@),
            body_start == framed_body_start(bytes@),
            body_start <= bytes.len(),
            k <= count + 1,
            offsets@.len() == k,
            forall|j: int| 0 <= j < k ==> offsets@[j] == framed_offset(bytes@, j),
        decreases count + 1 - k,
    {
        let value = get_u32_le(bytes, 12 + 4 * k);
        offsets.push(value as usize);
        k = k + 1;
    }
    if offsets[0] != 0 || offsets[count as usize] != body_len {
        return Err(Error::Corrupt("non-canonical format-2 offsets".to_string()));
    }
    let mut j: usize = 0;
    while j < count as usize
        invariant
            count == framed_count(bytes@),
            offsets@.len() == count + 1,
            forall|i: int| 0 <= i <= count ==> offsets@[i] == framed_offset(bytes@, i),
            j <= count,
            forall|i: int| 0 <= i < j ==> #[trigger] offsets@[i] <= offsets@[i + 1],
        decreases count - j,
    {
        if offsets[j] > offsets[j + 1] {
            return Err(Error::Corrupt("non-canonical format-2 offsets".to_string()));
        }
        j = j + 1;
    }
    proof {
        lemma_monotone_bounded(offsets@, count as int);
    }
    let mut rows: Vec<Vec<u8>> = Vec::new();
    let mut i: usize = 0;
    while i < count as usize
        invariant
            count == framed_count(bytes@),
            body_start == framed_body_start(bytes@),
            body_start + body_len == bytes.len(),
            offsets@.len() == count + 1,
            forall|q: int| 0 <= q <= count ==> offsets@[q] == framed_offset(bytes@, q),
            forall|q: int| 0 <= q <= count ==> #[trigger] offsets@[q] <= body_len,
            forall|q: int| 0 <= q < count ==> #[trigger] offsets@[q] <= offsets@[q + 1],
            i <= count,
            rows@.len() == i,
            forall|q: int| 0 <= q < i ==> rows@[q]@ == framed_rows(bytes@)[q],
        decreases count - i,
    {
        assert(offsets@[i as int] <= offsets@[i + 1]);
        assert(offsets@[i + 1] <= body_len);
        let row = crate::bytes::copy_range(bytes, body_start + offsets[i], body_start + offsets[i + 1]);
        rows.push(row);
        i = i + 1;
    }
    assert(byte_views(rows@) =~= framed_rows(bytes@));
    Ok(rows)
}

/// A nondecreasing sequence is bounded by its last element.
proof fn lemma_monotone_bounded(offs: Seq<usize>, n: int)
    requires
        offs.len() == n + 1,
        n >= 0,
        forall|q: int| 0 <= q < n ==> #[trigger] offs[q] <= offs[q + 1],
    ensures
        forall|q: int| 0 <= q <= n ==> #[trigger] offs[q] <= offs[n],
{
    assert forall|q: int| 0 <= q <= n implies #[trigger] offs[q] <= offs[n] by {
        lemma_monotone_step(offs, n, q);
    }
}

proof fn lemma_monotone_step(offs: Seq<usize>, n: int, q: int)
    requires
        offs.len() == n + 1,
        0 <= q <= n,
        forall|p: int| 0 <= p < n ==> #[trigger] offs[p] <= offs[p + 1],
    ensures
        offs[q] <= offs[n],
    decreases n - q,
{
    if q < n {
        lemma_monotone_step(offs, n, q + 1);
        assert(offs[q] <= offs[q + 1]);
    }
}

/// Header facts of a framed blob built from rows.
proof fn lemma_framed_header(magic: Seq<u8>, rows: Seq<Seq<u8>>)
    requires
        magic.len() == 8,
        rows_fit(rows),
    ensures
        framed_blob(magic, rows).len() >= 16,
        framed_blob(magic, rows).take(8) == magic,
        framed_count(framed_blob(magic, rows)) == rows.len(),
        framed_body_start(framed_blob(magic, rows)) == 12 + le32_concat(row_offsets(rows)).len(),
        framed_blob(magic, rows).len() == framed_body_start(framed_blob(magic, rows)) + concat_all(
            rows,
        ).len(),
{
    lemma_le_round_trips();
    let n = rows.len() as int;
    let offs = row_offsets(rows);
    let head = magic + spec_u32_to_le_bytes(n as u32);
    let table = le32_concat(offs);
    let body = concat_all(rows);
    let bytes = framed_blob(magic, rows);
    lemma_le32_concat_len(offs);
    assert(bytes == head + table + body);
    assert(bytes.take(8) =~= magic);
    assert(bytes.subrange(8, 12) =~= spec_u32_to_le_bytes(n as u32));
}

/// The `k`-th offset of a framed blob built from rows is the length of the `k`-prefix.
proof fn lemma_framed_offset(magic: Seq<u8>, rows: Seq<Seq<u8>>, k: int)
    requires
        magic.len() == 8,
        rows_fit(rows),
        0 <= k <= rows.len(),
    ensures
        framed_offset(framed_blob(magic, rows), k) == concat_all(rows.take(k)).len(),
{
    lemma_le_round_trips();
    let offs = row_offsets(rows);
    let head = magic + spec_u32_to_le_bytes(rows.len() as u32);
    let table = le32_concat(offs);
    let body = concat_all(rows);
    let bytes = framed_blob(magic, rows);
    lemma_le32_concat_len(offs);
    lemma_concat_all_prefix(rows, k);
    lemma_le32_concat_at(offs, k);
    assert(bytes == head + table + body);
    assert(bytes.subrange(12 + 4 * k, 12 + 4 * k + 4) =~= table.subrange(4 * k, 4 * k + 4));
}

proof fn lemma_framed_row(magic: Seq<u8>, rows: Seq<Seq<u8>>, k: int)
    requires
        magic.len() == 8,
        rows_fit(rows),
        0 <= k < rows.len(),
    ensures
        framed_blob(magic, rows).subrange(
            framed_body_start(framed_blob(magic, rows)) + framed_offset(framed_blob(magic, rows), k),
            framed_body_start(framed_blob(magic, rows)) + framed_offset(
                framed_blob(magic, rows),
                k + 1,
            ),
        ) == rows[k],
{
    lemma_concat_all_part(rows, k);
    lemma_framed_offset(magic, rows, k);
    lemma_framed_offset(magic, rows, k + 1);
    lemma_framed_header(magic, rows);
    lemma_concat_all_prefix(rows, k + 1);
    let bytes = framed_blob(magic, rows);
    let start = framed_body_start(bytes);
    let a = concat_all(rows.take(k)).len() as int;
    let b = concat_all(rows.take(k + 1)).len() as int;
    let body = concat_all(rows);
    let head = magic + spec_u32_to_le_bytes(rows.len() as u32) + le32_concat(row_offsets(rows));
    assert(bytes == head + body);
    assert(head.len() == start) by {
        lemma_le_round_trips();
    }
    assert(bytes.subrange(start + a, start + b) =~= body.subrange(a, b));
}

/// Framing round trip: the rows of a framed blob are the rows it was built from.
pub proof fn lemma_framed_round_trip(magic: Seq<u8>, rows: Seq<Seq<u8>>)
    requires
        magic.len() == 8,
        rows_fit(rows),
    ensures
        is_framed(framed_blob(magic, rows), magic),
        framed_rows(framed_blob(magic, rows)) == rows,
{
    let n = rows.len() as int;
    let bytes = framed_blob(magic, rows);
    lemma_framed_header(magic, rows);
    lemma_framed_offset(magic, rows, 0);
    lemma_framed_offset(magic, rows, n);
    assert(rows.take(n) =~= rows);
    assert(rows.take(0) =~= Seq::<Seq<u8>>::empty());
    assert forall|k: int| 0 <= k < n implies #[trigger] framed_offset(bytes, k) <= framed_offset(
        bytes,
        k + 1,
    ) by {
        lemma_concat_all_part(rows, k);
        lemma_framed_offset(magic, rows, k);
        lemma_framed_offset(magic, rows, k + 1);
    }
    assert forall|k: int| 0 <= k < n implies #[trigger] framed_rows(bytes)[k] == rows[k] by {
        lemma_framed_row(magic, rows, k);
    }
    assert(framed_rows(bytes) =~= rows);
}

/// The magic of a payload shard, `GTV2PAY\0`.
pub open spec fn payloads_magic() -> Seq<u8> {
    seq![0x47u8, 0x54u8, 0x56u8, 0x32u8, 0x50u8, 0x41u8, 0x59u8, 0x00u8]
}

fn payloads_magic_bytes() -> (r: Vec<u8>)
    ensures
        r@ == payloads_magic(),
{
    let r = vec![0x47u8, 0x54u8, 0x56u8, 0x32u8, 0x50u8, 0x41u8, 0x59u8, 0x00u8];
    assert(r@ =~= payloads_magic());
    r
}

/// Writes a payload shard whose rows are the given canonical JSON objects.
///
/// Fails with `Invalid` when there are more than `u32::MAX` rows or the rows
/// together exceed `u32::MAX` bytes.
pub fn encode_payloads(rows: &Vec<Vec<u8>>) -> (r: Result<Vec<u8>, Error>)
    ensures
        r is Ok <==> rows_fit(byte_views(rows@)),
        r matches Ok(bytes) ==> bytes@ == framed_blob(payloads_magic(), byte_views(rows@)),
        r matches Err(e) ==> e is Invalid,
{
    let ghost views = byte_views(rows@);
    let mut body: Vec<u8> = Vec::new();
    let mut offsets: Vec<u32> = Vec::new();
    offsets.push(0u32);
    proof {
        assert(views.take(0) =~= Seq::<Seq<u8>>::empty());
        assert(offsets@ =~= row_offsets(views.take(0)));
    }
    let mut i: usize = 0;
    while i < rows.len()
        invariant
            i <= rows.len(),
            views == byte_views(rows@),
            views.len() == rows.len(),
            body@ == concat_all(views.take(i as int)),
            body@.len() <= u32::MAX,
            offsets@ == row_offsets(views.take(i as int)),
        decreases rows.len() - i,
    {
        proof {
            crate::bytes::lemma_concat_all_push(views.take(i as int), views[i as int]);
            assert(views.take(i + 1) =~= views.take(i as int).push(views[i as int]));
        }
        append_bytes(&mut body, rows[i].as_slice());
        if body.len() > 0xffff_ffffusize {
            proof {
                lemma_concat_all_prefix(views, i + 1);
            }
            return Err(Error::Invalid("format-2 payload shard exceeds u32 bytes".to_string()));
        }
        offsets.push(body.len() as u32);
        proof {
            let t = views.take(i + 1);
            assert forall|k: int| 0 <= k <= i + 1 implies #[trigger] row_offsets(t)[k] == offsets@[k] by {
                if k <= i {
                    assert(t.take(k) =~= views.take(i as int).take(k));
                } else {
                    assert(t.take(k) =~= t);
                }
            }
            assert(offsets@ =~= row_offsets(t));
        }
        i = i + 1;
    }
    assert(views.take(rows.len() as int) =~= views);
    let magic = payloads_magic_bytes();
    encode_offsets(magic.as_slice(), rows.len(), offsets.as_slice(), body.as_slice())
}

/// Splits a payload shard into its rows; fails with `Corrupt` unless it is a
/// well-formed framed blob with the payload magic.
pub fn decode_payloads(bytes: &[u8]) -> (r: Result<Vec<Vec<u8>>, Error>)
    ensures
        r is Ok <==> is_framed(bytes@, payloads_magic()),
        r matches Ok(rows) ==> byte_views(rows@) == framed_rows(bytes@),
        r matches Err(e) ==> e is Corrupt,
{
    let magic = payloads_magic_bytes();
    decode_offsets(bytes, magic.as_slice())
}

} // verus!
