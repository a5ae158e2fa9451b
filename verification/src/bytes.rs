//! Little-endian integer fields and byte-string framing shared by the shard formats.
use vstd::bytes::{
    spec_u16_from_le_bytes, spec_u16_to_le_bytes, spec_u32_from_le_bytes, spec_u32_to_le_bytes,
    spec_u64_from_le_bytes, spec_u64_to_le_bytes,
};
use vstd::prelude::*;

verus! {

/// The little-endian `u32` stored at `pos` in `bytes`.
pub open spec fn le32_at(bytes: Seq<u8>, pos: int) -> u32 {
    spec_u32_from_le_bytes(bytes.subrange(pos, pos + 4))
}

/// The little-endian `u16` stored at `pos` in `bytes`.
pub open spec fn le16_at(bytes: Seq<u8>, pos: int) -> u16 {
    spec_u16_from_le_bytes(bytes.subrange(pos, pos + 2))
}

/// The little-endian `u64` stored at `pos` in `bytes`.
pub open spec fn le64_at(bytes: Seq<u8>, pos: int) -> u64 {
    spec_u64_from_le_bytes(bytes.subrange(pos, pos + 8))
}

/// Concatenation of the little-endian encodings of a sequence of `u32` values.
pub open spec fn le32_concat(values: Seq<u32>) -> Seq<u8>
    decreases values.len(),
{
    if values.len() == 0 {
        Seq::empty()
    } else {
        le32_concat(values.drop_last()) + spec_u32_to_le_bytes(values.last())
    }
}

/// Concatenation of byte strings.
pub open spec fn concat_all(parts: Seq<Seq<u8>>) -> Seq<u8>
    decreases parts.len(),
{
    if parts.len() == 0 {
        Seq::empty()
    } else {
        concat_all(parts.drop_last()) + parts.last()
    }
}

pub proof fn lemma_le_round_trips()
    ensures
        forall|x: u32|
            #![trigger spec_u32_to_le_bytes(x)]
            spec_u32_to_le_bytes(x).len() == 4 && spec_u32_from_le_bytes(spec_u32_to_le_bytes(x))
                == x,
        forall|x: u16|
            #![trigger spec_u16_to_le_bytes(x)]
            spec_u16_to_le_bytes(x).len() == 2 && spec_u16_from_le_bytes(spec_u16_to_le_bytes(x))
                == x,
        forall|x: u64|
            #![trigger spec_u64_to_le_bytes(x)]
            spec_u64_to_le_bytes(x).len() == 8 && spec_u64_from_le_bytes(spec_u64_to_le_bytes(x))
                == x,
{
    vstd::bytes::lemma_auto_spec_u32_to_from_le_bytes();
    vstd::bytes::lemma_auto_spec_u16_to_from_le_bytes();
    vstd::bytes::lemma_auto_spec_u64_to_from_le_bytes();
}

pub proof fn lemma_le32_concat_len(values: Seq<u32>)
    ensures
        le32_concat(values).len() == 4 * values.len(),
    decreases values.len(),
{
    lemma_le_round_trips();
    if values.len() > 0 {
        lemma_le32_concat_len(values.drop_last());
    }
}

/// The `k`-th field of a concatenation of `u32` encodings decodes to the `k`-th value.
pub proof fn lemma_le32_concat_at(values: Seq<u32>, k: int)
    requires
        0 <= k < values.len(),
    ensures
        le32_at(le32_concat(values), 4 * k) == values[k],
        le32_concat(values).subrange(4 * k, 4 * k + 4) == spec_u32_to_le_bytes(values[k]),
    decreases values.len(),
{
    lemma_le_round_trips();
    lemma_le32_concat_len(values.drop_last());
    let init = le32_concat(values.drop_last());
    let last = spec_u32_to_le_bytes(values.last());
    if k == values.len() - 1 {
        assert((init + last).subrange(4 * k, 4 * k + 4) =~= last);
    } else {
        lemma_le32_concat_at(values.drop_last(), k);
        assert((init + last).subrange(4 * k, 4 * k + 4) =~= init.subrange(4 * k, 4 * k + 4));
    }
}

pub proof fn lemma_le32_concat_push(values: Seq<u32>, v: u32)
    ensures
        le32_concat(values.push(v)) == le32_concat(values) + spec_u32_to_le_bytes(v),
{
    assert(values.push(v).drop_last() =~= values);
}

pub proof fn lemma_concat_all_push(parts: Seq<Seq<u8>>, p: Seq<u8>)
    ensures
        concat_all(parts.push(p)) == concat_all(parts) + p,
{
    assert(parts.push(p).drop_last() =~= parts);
}

/// A prefix of the parts concatenates to a prefix of the whole.
pub proof fn lemma_concat_all_prefix(parts: Seq<Seq<u8>>, j: int)
    requires
        0 <= j <= parts.len(),
    ensures
        concat_all(parts.take(j)).len() <= concat_all(parts).len(),
        concat_all(parts).take(concat_all(parts.take(j)).len() as int) == concat_all(parts.take(j)),
    decreases parts.len() - j,
{
    if j == parts.len() {
        assert(parts.take(j) =~= parts);
        assert(concat_all(parts).take(concat_all(parts).len() as int) =~= concat_all(parts));
    } else {
        lemma_concat_all_prefix(parts, j + 1);
        assert(parts.take(j + 1).drop_last() =~= parts.take(j));
        let a = concat_all(parts.take(j));
        let b = concat_all(parts.take(j + 1));
        assert(b == a + parts[j]);
        assert(concat_all(parts).take(a.len() as int) =~= b.take(a.len() as int));
        assert(b.take(a.len() as int) =~= a);
    }
}

/// The `k`-th part occupies the range between the lengths of the `k`- and `k+1`-prefixes.
pub proof fn lemma_concat_all_part(parts: Seq<Seq<u8>>, k: int)
    requires
        0 <= k < parts.len(),
    ensures
        concat_all(parts.take(k + 1)).len() == concat_all(parts.take(k)).len() + parts[k].len(),
        concat_all(parts).subrange(
            concat_all(parts.take(k)).len() as int,
            concat_all(parts.take(k + 1)).len() as int,
        ) == parts[k],
{
    lemma_concat_all_prefix(parts, k + 1);
    assert(parts.take(k + 1).drop_last() =~= parts.take(k));
    let a = concat_all(parts.take(k));
    let b = concat_all(parts.take(k + 1));
    assert(b == a + parts[k]);
    assert(concat_all(parts).subrange(a.len() as int, b.len() as int) =~= b.subrange(
        a.len() as int,
        b.len() as int,
    ));
    assert(b.subrange(a.len() as int, b.len() as int) =~= parts[k]);
}

/// Appends `src` to `out`.
pub fn append_bytes(out: &mut Vec<u8>, src: &[u8])
    ensures
        final(out)@ == old(out)@ + src@,
{
    let mut i: usize = 0;
    while i < src.len()
        invariant
            i <= src.len(),
            out@ == old(out)@ + src@.take(i as int),
        decreases src.len() - i,
    {
        out.push(src[i]);
        assert(src@.take(i + 1) =~= src@.take(i as int).push(src@[i as int]));
        i = i + 1;
    }
    assert(src@.take(src@.len() as int) =~= src@);
}

/// Appends the little-endian encoding of a `u32`.
pub fn push_u32_le(out: &mut Vec<u8>, value: u32)
    ensures
        final(out)@ == old(out)@ + spec_u32_to_le_bytes(value),
{
    let bytes = vstd::bytes::u32_to_le_bytes(value);
    append_bytes(out, bytes.as_slice());
}

/// Appends the little-endian encoding of a `u16`.
pub fn push_u16_le(out: &mut Vec<u8>, value: u16)
    ensures
        final(out)@ == old(out)@ + spec_u16_to_le_bytes(value),
{
    let bytes = vstd::bytes::u16_to_le_bytes(value);
    append_bytes(out, bytes.as_slice());
}

/// Appends the little-endian encoding of a `u64`.
pub fn push_u64_le(out: &mut Vec<u8>, value: u64)
    ensures
        final(out)@ == old(out)@ + spec_u64_to_le_bytes(value),
{
    let bytes = vstd::bytes::u64_to_le_bytes(value);
    append_bytes(out, bytes.as_slice());
}

/// Reads the little-endian `u32` at `pos`.
pub fn get_u32_le(bytes: &[u8], pos: usize) -> (v: u32)
    requires
        pos + 4 <= bytes.len(),
    ensures
        v == le32_at(bytes@, pos as int),
{
    vstd::bytes::u32_from_le_bytes(vstd::slice::slice_subrange(bytes, pos, pos + 4))
}

/// Reads the little-endian `u16` at `pos`.
pub fn get_u16_le(bytes: &[u8], pos: usize) -> (v: u16)
    requires
        pos + 2 <= bytes.len(),
    ensures
        v == le16_at(bytes@, pos as int),
{
    vstd::bytes::u16_from_le_bytes(vstd::slice::slice_subrange(bytes, pos, pos + 2))
}

/// Reads the little-endian `u64` at `pos`.
pub fn get_u64_le(bytes: &[u8], pos: usize) -> (v: u64)
    requires
        pos + 8 <= bytes.len(),
    ensures
        v == le64_at(bytes@, pos as int),
{
    vstd::bytes::u64_from_le_bytes(vstd::slice::slice_subrange(bytes, pos, pos + 8))
}

/// Copies `bytes[start..end]`.
pub fn copy_range(bytes: &[u8], start: usize, end: usize) -> (r: Vec<u8>)
    requires
        start <= end <= bytes@.len(),
    ensures
        r@ == bytes@.subrange(start as int, end as int),
{
    let mut out: Vec<u8> = Vec::new();
    append_bytes(&mut out, vstd::slice::slice_subrange(bytes, start, end));
    out
}

/// Returns `true` when `bytes` starts with `prefix`.
pub fn starts_with(bytes: &[u8], prefix: &[u8]) -> (r: bool)
    ensures
        r == (prefix@.len() <= bytes@.len() && bytes@.take(prefix@.len() as int) == prefix@),
{
    if prefix.len() > bytes.len() {
        return false;
    }
    let mut i: usize = 0;
    while i < prefix.len()
        invariant
            i <= prefix.len() <= bytes.len(),
            forall|j: int| 0 <= j < i ==> bytes@[j] == prefix@[j],
        decreases prefix.len() - i,
    {
        if bytes[i] != prefix[i] {
            assert(bytes@.take(prefix@.len() as int)[i as int] != prefix@[i as int]);
            return false;
        }
        i = i + 1;
    }
    assert(bytes@.take(prefix@.len() as int) =~= prefix@);
    true
}

} // verus!
