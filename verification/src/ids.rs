//! The format-2 ID shard: typed point identifiers framed in an offset table,
//! and the digest-derived shard of each identifier.
use crate::bytes::{
    append_bytes, concat_all, get_u32_le, get_u64_le, le32_at, le64_at, lemma_concat_all_push,
    lemma_le_round_trips, push_u32_le, push_u64_le,
};
use crate::digest::{hex_encode, hex_lower, sha256, sha256_digest};
use crate::model::{canonical_id_bytes, id_lt, IdValue, PointId};
use crate::shard::{
    byte_views, decode_offsets, encode_offsets, framed_blob, framed_rows, is_framed,
    lemma_framed_round_trip, row_offsets, rows_fit,
};
use crate::Error;
use vstd::bytes::{spec_u32_to_le_bytes, spec_u64_to_le_bytes};
use vstd::prelude::*;
use vstd::utf8::{decode_utf8, encode_utf8, valid_utf8};

verus! {

broadcast use {vstd::utf8::encode_utf8_valid_utf8, vstd::utf8::encode_utf8_decode_utf8};

/// Number of leading digest bits that select a format-2 shard.
pub const SHARD_BITS: usize = 6;

/// Number of format-2 shards.
pub const SHARD_COUNT: usize = 64;

/// The magic of a format-2 ID shard blob, `GTV2IDS\0`.
pub open spec fn ids_magic() -> Seq<u8> {
    seq![0x47u8, 0x54u8, 0x56u8, 0x32u8, 0x49u8, 0x44u8, 0x53u8, 0x00u8]
}

/// The bytes of `GTV2IDS\0`.
pub fn ids_magic_bytes() -> (r: Vec<u8>)
    ensures
        r@ == ids_magic(),
{
    let r: Vec<u8> = vec![0x47u8, 0x54u8, 0x56u8, 0x32u8, 0x49u8, 0x44u8, 0x53u8, 0x00u8];
    assert(r@ =~= ids_magic());
    r
}

/// The identifier views of a sequence of identifiers.
pub open spec fn id_views(ids: Seq<PointId>) -> Seq<IdValue> {
    ids.map_values(|id: PointId| id@)
}

/// The shard of an identifier: the top six bits of the digest of its canonical bytes.
pub open spec fn shard_of(id: IdValue) -> u16 {
    (sha256(canonical_id_bytes(id))[0] >> 2u8) as u16
}

/// The lowercase hexadecimal digest of an identifier's canonical bytes.
pub open spec fn id_hash_text(id: IdValue) -> Seq<char> {
    hex_lower(sha256(canonical_id_bytes(id)))
}

/// The row of an identifier in an ID shard: kind byte `0` with a `u32` byte
/// length and the UTF-8 bytes of a string, or kind byte `1` and the eight
/// little-endian bytes of an integer.
pub open spec fn id_row(id: IdValue) -> Seq<u8> {
    match id {
        IdValue::Text(s) => seq![0u8] + spec_u32_to_le_bytes(encode_utf8(s).len() as u32)
            + encode_utf8(s),
        IdValue::Number(v) => seq![1u8] + spec_u64_to_le_bytes(v),
    }
}

/// Whether an identifier's row length fields fit.
pub open spec fn id_row_fits(id: IdValue) -> bool {
    match id {
        IdValue::Text(s) => encode_utf8(s).len() <= u32::MAX,
        IdValue::Number(_) => true,
    }
}

/// The rows of a sequence of identifiers.
pub open spec fn id_rows(ids: Seq<IdValue>) -> Seq<Seq<u8>> {
    ids.map_values(|id: IdValue| id_row(id))
}

/// Whether a sequence of identifiers can be written as an ID shard.
pub open spec fn ids_encodable(ids: Seq<IdValue>) -> bool {
    &&& forall|i: int| 0 <= i < ids.len() ==> id_row_fits(#[trigger] ids[i])
    &&& rows_fit(id_rows(ids))
}

/// The identifier stored in an ID row, if the row is well formed.
pub open spec fn parse_id_row(row: Seq<u8>) -> Option<IdValue> {
    if row.len() == 0 {
        None
    } else if row[0] == 0 {
        let value = row.drop_first();
        if value.len() < 4 || value.len() != 4 + le32_at(value, 0) || !valid_utf8(value.skip(4)) {
            None
        } else {
            Some(IdValue::Text(decode_utf8(value.skip(4))))
        }
    } else if row[0] == 1 && row.len() == 9 {
        Some(IdValue::Number(le64_at(row.drop_first(), 0)))
    } else {
        None
    }
}

/// Whether row `i` holds an identifier of `shard` that follows the one of row `i - 1`.
pub open spec fn id_row_ok(rows: Seq<Seq<u8>>, i: int, shard: u16) -> bool {
    &&& parse_id_row(rows[i]) is Some
    &&& shard_of(parse_id_row(rows[i])->0) == shard
    &&& i > 0 ==> id_lt(parse_id_row(rows[i - 1])->0, parse_id_row(rows[i])->0)
}

/// Whether every row holds an identifier of `shard`, in strictly increasing canonical order.
pub open spec fn id_rows_valid(rows: Seq<Seq<u8>>, shard: u16) -> bool {
    forall|i: int| 0 <= i < rows.len() ==> #[trigger] id_row_ok(rows, i, shard)
}

/// The identifiers held by ID rows.
pub open spec fn id_rows_values(rows: Seq<Seq<u8>>) -> Seq<IdValue> {
    rows.map_values(|row: Seq<u8>| parse_id_row(row)->0)
}

/// The identifiers of a valid ID shard of `shard`, or `None`.
pub open spec fn decoded_ids(bytes: Seq<u8>, shard: u16) -> Option<Seq<IdValue>> {
    if is_framed(bytes, ids_magic()) && id_rows_valid(framed_rows(bytes), shard) {
        Some(id_rows_values(framed_rows(bytes)))
    } else {
        None
    }
}

/// The format-2 shard of an identifier.
pub fn shard_for_id(id: &PointId) -> (s: u16)
    ensures
        s == shard_of(id@),
        s < SHARD_COUNT,
{
    let canonical = id.canonical_bytes();
    let digest = sha256_digest(canonical.as_slice());
    let first = digest[0];
    assert(first >> 2u8 < 64) by (bit_vector);
    (first >> 2u8) as u16
}

/// The lowercase hexadecimal digest of an identifier's canonical bytes.
pub fn id_hash(id: &PointId) -> (r: String)
    ensures
        r@ == id_hash_text(id@),
        r@.len() == 64,
{
    let canonical = id.canonical_bytes();
    let digest = sha256_digest(canonical.as_slice());
    proof {
        crate::digest::lemma_hex_lower_len(digest@);
    }
    hex_encode(digest.as_slice())
}

/// The row of one identifier; fails with `Invalid` when a string is longer than `u32::MAX` bytes.
pub fn encode_id_row(id: &PointId) -> (r: Result<Vec<u8>, Error>)
    ensures
        id_row_fits(id@) ==> (r matches Ok(row) && row@ == id_row(id@)),
        !id_row_fits(id@) ==> r matches Err(Error::Invalid(_)),
{
    let mut row: Vec<u8> = Vec::new();
    match id {
        PointId::String(value) => {
            let raw = value.as_str().as_bytes();
            if raw.len() > 0xffff_ffffusize {
                return Err(Error::Invalid("string point ID exceeds u32 bytes".to_string()));
            }
            row.push(0u8);
            push_u32_le(&mut row, raw.len() as u32);
            append_bytes(&mut row, raw);
        },
        PointId::UInt(value) => {
            row.push(1u8);
            push_u64_le(&mut row, *value);
        },
    }
    assert(row@ =~= id_row(id@));
    Ok(row)
}

/// Parses one ID row.
pub fn parse_id(row: &[u8]) -> (r: Option<PointId>)
    ensures
        r is Some <==> parse_id_row(row@) is Some,
        r matches Some(id) ==> id@ == parse_id_row(row@)->0,
{
    if row.len() == 0 {
        return None;
    }
    let kind = row[0];
    let ghost value = row@.drop_first();
    if kind == 0 {
        if row.len() < 5 {
            return None;
        }
        let length = get_u32_le(row, 1);
        assert(le32_at(value, 0) == length) by {
            assert(value.subrange(0, 4) =~= row@.subrange(1, 5));
        }
        if row.len() - 5 != length as usize {
            return None;
        }
        let text = crate::bytes::copy_range(row, 5, row.len());
        assert(text@ =~= value.skip(4));
        match crate::unicode::string_from_utf8(text) {
            Some(s) => Some(PointId::String(s)),
            None => None,
        }
    } else if kind == 1 && row.len() == 9 {
        let v = get_u64_le(row, 1);
        assert(value.subrange(0, 8) =~= row@.subrange(1, 9));
        Some(PointId::UInt(v))
    } else {
        None
    }
}

/// Writes an ID shard holding `ids` in order.
///
/// Fails with `Invalid` when a string ID or the shard body exceeds `u32::MAX` bytes.
pub fn encode_ids(ids: &[PointId]) -> (r: Result<Vec<u8>, Error>)
    ensures
        r is Ok <==> ids_encodable(id_views(ids@)),
        r matches Ok(bytes) ==> bytes@ == framed_blob(ids_magic(), id_rows(id_views(ids@))),
        r matches Err(e) ==> e is Invalid,
{
    let ghost views = id_views(ids@);
    let ghost rows = id_rows(views);
    let mut body: Vec<u8> = Vec::new();
    let mut offsets: Vec<u32> = Vec::new();
    offsets.push(0u32);
    proof {
        assert(rows.take(0) =~= Seq::<Seq<u8>>::empty());
        assert(offsets@ =~= row_offsets(rows.take(0)));
    }
    let mut i: usize = 0;
    while i < ids.len()
        invariant
            i <= ids.len(),
            views == id_views(ids@),
            rows == id_rows(views),
            rows.len() == ids.len(),
            body@ == concat_all(rows.take(i as int)),
            body@.len() <= u32::MAX,
            offsets@ == row_offsets(rows.take(i as int)),
            forall|j: int| 0 <= j < i ==> id_row_fits(#[trigger] views[j]),
        decreases ids.len() - i,
    {
        let row = match encode_id_row(&ids[i]) {
            Ok(row) => row,
            Err(e) => {
                assert(!id_row_fits(views[i as int]));
                return Err(e);
            },
        };
        proof {
            lemma_concat_all_push(rows.take(i as int), rows[i as int]);
            assert(rows.take(i + 1) =~= rows.take(i as int).push(rows[i as int]));
        }
        append_bytes(&mut body, row.as_slice());
        if body.len() > 0xffff_ffffusize {
            proof {
                lemma_concat_prefix_le(rows, i + 1);
            }
            return Err(Error::Invalid("format-2 ID shard exceeds u32 bytes".to_string()));
        }
        offsets.push(body.len() as u32);
        proof {
            let t = rows.take(i + 1);
            assert forall|k: int| 0 <= k <= i + 1 implies #[trigger] row_offsets(t)[k]
                == offsets@[k] by {
                if k <= i {
                    assert(t.take(k) =~= rows.take(i as int).take(k));
                } else {
                    assert(t.take(k) =~= t);
                }
            }
            assert(offsets@ =~= row_offsets(t));
        }
        i = i + 1;
    }
    assert(rows.take(ids.len() as int) =~= rows);
    let magic = ids_magic_bytes();
    let r = encode_offsets(magic.as_slice(), ids.len(), offsets.as_slice(), body.as_slice());
    proof {
        lemma_rows_nonempty_count(rows);
    }
    r
}

/// Reads an ID shard of `shard`.
///
/// Succeeds exactly when the blob is a well-formed framed blob whose rows are
/// valid identifiers of `shard` in strictly increasing canonical order; any
/// other input fails with `Corrupt`.
pub fn decode_ids(bytes: &[u8], shard: u16) -> (r: Result<Vec<PointId>, Error>)
    ensures
        r is Ok <==> decoded_ids(bytes@, shard) is Some,
        r matches Ok(ids) ==> id_views(ids@) == decoded_ids(bytes@, shard)->0,
        r matches Err(e) ==> e is Corrupt,
{
    let magic = ids_magic_bytes();
    let sections = decode_offsets(bytes, magic.as_slice())?;
    let ghost rows = framed_rows(bytes@);
    let mut ids: Vec<PointId> = Vec::new();
    let mut i: usize = 0;
    while i < sections.len()
        invariant
            byte_views(sections@) == rows,
            rows == framed_rows(bytes@),
            rows.len() == sections@.len(),
            i <= sections.len(),
            ids@.len() == i,
            forall|j: int| 0 <= j < i ==> #[trigger] id_row_ok(rows, j, shard),
            forall|j: int| 0 <= j < i ==> #[trigger] ids@[j]@ == parse_id_row(rows[j])->0,
        decreases sections.len() - i,
    {
        assert(sections@[i as int]@ == rows[i as int]);
        let id = match parse_id(sections[i].as_slice()) {
            Some(id) => id,
            None => {
                assert(!id_row_ok(rows, i as int, shard));
                assert(!id_rows_valid(rows, shard));
                return Err(Error::Corrupt("invalid format-2 ID encoding".to_string()));
            },
        };
        if shard_for_id(&id) != shard {
            assert(!id_row_ok(rows, i as int, shard));
            assert(!id_rows_valid(rows, shard));
            return Err(Error::Corrupt("format-2 ID is stored in the wrong shard".to_string()));
        }
        if i > 0 && !ids[i - 1].precedes(&id) {
            assert(!id_row_ok(rows, i as int, shard));
            return Err(Error::Corrupt("format-2 IDs are not in canonical order".to_string()));
        }
        ids.push(id);
        assert(id_row_ok(rows, i as int, shard));
        i = i + 1;
    }
    assert(id_views(ids@) =~= id_rows_values(rows));
    Ok(ids)
}

/// ID row round trip: parsing the row of an identifier gives the identifier back.
pub proof fn lemma_id_row_round_trip(id: IdValue)
    requires
        id_row_fits(id),
    ensures
        parse_id_row(id_row(id)) == Some(id),
{
    lemma_le_round_trips();
    let row = id_row(id);
    match id {
        IdValue::Text(s) => {
            let value = row.drop_first();
            assert(value =~= spec_u32_to_le_bytes(encode_utf8(s).len() as u32) + encode_utf8(s));
            assert(value.subrange(0, 4) =~= spec_u32_to_le_bytes(encode_utf8(s).len() as u32));
            assert(value.skip(4) =~= encode_utf8(s));
        },
        IdValue::Number(v) => {
            assert(row.drop_first().subrange(0, 8) =~= spec_u64_to_le_bytes(v));
        },
    }
}

/// ID shard round trip: identifiers of one shard in strictly increasing
/// canonical order are read back exactly from the blob written for them.
pub proof fn lemma_ids_round_trip(ids: Seq<IdValue>, shard: u16)
    requires
        ids_encodable(ids),
        forall|i: int| 0 <= i < ids.len() ==> shard_of(#[trigger] ids[i]) == shard,
        forall|i: int| 0 < i < ids.len() ==> id_lt(#[trigger] ids[i - 1], ids[i]),
    ensures
        decoded_ids(framed_blob(ids_magic(), id_rows(ids)), shard) == Some(ids),
{
    let rows = id_rows(ids);
    lemma_framed_round_trip(ids_magic(), rows);
    assert forall|i: int| 0 <= i < ids.len() implies parse_id_row(#[trigger] rows[i]) == Some(
        ids[i],
    ) by {
        lemma_id_row_round_trip(ids[i]);
    }
    assert forall|i: int| 0 <= i < rows.len() implies #[trigger] id_row_ok(rows, i, shard) by {
        assert(parse_id_row(rows[i]) == Some(ids[i]));
        if i > 0 {
            assert(parse_id_row(rows[i - 1]) == Some(ids[i - 1]));
        }
    }
    assert(id_rows_values(rows) =~= ids);
}

/// A prefix concatenation is no longer than the whole.
proof fn lemma_concat_prefix_le(rows: Seq<Seq<u8>>, j: int)
    requires
        0 <= j <= rows.len(),
    ensures
        concat_all(rows.take(j)).len() <= concat_all(rows).len(),
{
    crate::bytes::lemma_concat_all_prefix(rows, j);
}

/// Rows of at least one byte are no more numerous than the bytes of their concatenation.
proof fn lemma_rows_nonempty_count(rows: Seq<Seq<u8>>)
    requires
        forall|i: int| 0 <= i < rows.len() ==> #[trigger] rows[i].len() >= 1,
    ensures
        rows.len() <= concat_all(rows).len(),
    decreases rows.len(),
{
    if rows.len() > 0 {
        lemma_rows_nonempty_count(rows.drop_last());
    }
}

/// Every identifier of a valid ID shard belongs to that shard.
pub proof fn lemma_decoded_ids_shard(bytes: Seq<u8>, shard: u16)
    requires
        decoded_ids(bytes, shard) is Some,
    ensures
        forall|k: int| 0 <= k < decoded_ids(bytes, shard)->0.len() ==> shard_of(#[trigger] decoded_ids(bytes, shard)->0[k]) == shard,
{
    let rows = framed_rows(bytes);
    assert forall|k: int| 0 <= k < decoded_ids(bytes, shard)->0.len() implies shard_of(#[trigger] decoded_ids(bytes, shard)->0[k]) == shard by {
        assert(id_row_ok(rows, k, shard));
    }
}

} // verus!
