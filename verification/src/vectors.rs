//! Vector blobs. Components are IEEE-754 single-precision values carried as
//! their bit patterns, written little-endian.
use crate::bytes::{
    append_bytes, get_u32_le, le32_at, le32_concat, lemma_le32_concat_at, lemma_le32_concat_len,
    lemma_le32_concat_push, lemma_le_round_trips, push_u32_le, starts_with,
};
use crate::Error;
use vstd::bytes::spec_u32_to_le_bytes;
use vstd::prelude::*;

verus! {

/// Whether a single-precision bit pattern is a finite value (its exponent is not all ones).
pub open spec fn finite_bits(bits: u32) -> bool {
    bits & 0x7f80_0000u32 != 0x7f80_0000u32
}

/// Whether every component is finite.
pub open spec fn all_finite(components: Seq<u32>) -> bool {
    forall|i: int| 0 <= i < components.len() ==> finite_bits(#[trigger] components[i])
}

/// Returns `true` when the bit pattern is a finite single-precision value.
pub fn is_finite_bits(bits: u32) -> (r: bool)
    ensures
        r == finite_bits(bits),
{
    bits & 0x7f80_0000u32 != 0x7f80_0000u32
}

/// Checks that every vector component is finite; fails with `Invalid` otherwise.
pub fn validate_vector_components(components: &[u32]) -> (r: Result<(), Error>)
    ensures
        r is Ok <==> all_finite(components@),
        r matches Err(e) ==> e is Invalid,
{
    let mut i: usize = 0;
    while i < components.len()
        invariant
            i <= components.len(),
            forall|j: int| 0 <= j < i ==> finite_bits(#[trigger] components@[j]),
        decreases components.len() - i,
    {
        if !is_finite_bits(components[i]) {
            return Err(Error::Invalid("vector components must be finite f32 values".to_string()));
        }
        i = i + 1;
    }
    Ok(())
}

/// The magic of a format-1 point vector blob, `GTVDBV01`.
pub open spec fn vector_magic() -> Seq<u8> {
    seq![0x47u8, 0x54u8, 0x56u8, 0x44u8, 0x42u8, 0x56u8, 0x30u8, 0x31u8]
}

/// The magic of a format-2 vector shard, `GTV2VEC\0`.
pub open spec fn vectors_magic() -> Seq<u8> {
    seq![0x47u8, 0x54u8, 0x56u8, 0x32u8, 0x56u8, 0x45u8, 0x43u8, 0x00u8]
}

/// The magic of a format-2 centroid codebook, `GTV2IVF\0`.
pub open spec fn codebook_magic() -> Seq<u8> {
    seq![0x47u8, 0x54u8, 0x56u8, 0x32u8, 0x49u8, 0x56u8, 0x46u8, 0x00u8]
}

fn magic_vec(which: u8) -> (r: Vec<u8>)
    requires
        which < 3,
    ensures
        which == 0 ==> r@ == vector_magic(),
        which == 1 ==> r@ == vectors_magic(),
        which == 2 ==> r@ == codebook_magic(),
{
    let r: Vec<u8> = if which == 0 {
        vec![0x47u8, 0x54u8, 0x56u8, 0x44u8, 0x42u8, 0x56u8, 0x30u8, 0x31u8]
    } else if which == 1 {
        vec![0x47u8, 0x54u8, 0x56u8, 0x32u8, 0x56u8, 0x45u8, 0x43u8, 0x00u8]
    } else {
        vec![0x47u8, 0x54u8, 0x56u8, 0x32u8, 0x49u8, 0x56u8, 0x46u8, 0x00u8]
    };
    assert(which == 0 ==> r@ =~= vector_magic());
    assert(which == 1 ==> r@ =~= vectors_magic());
    assert(which == 2 ==> r@ =~= codebook_magic());
    r
}

/// The format-1 blob of one vector: magic, `u32` dimension, components.
pub open spec fn vector_blob(components: Seq<u32>) -> Seq<u8> {
    vector_magic() + spec_u32_to_le_bytes(components.len() as u32) + le32_concat(components)
}

/// The vector held by a well-formed format-1 vector blob, or `None`.
pub open spec fn decoded_vector(bytes: Seq<u8>) -> Option<Seq<u32>> {
    let dimension = le32_at(bytes, 8) as int;
    let components = Seq::new(dimension as nat, |k: int| le32_at(bytes, 12 + 4 * k));
    if bytes.len() >= 12 && bytes.take(8) == vector_magic() && bytes.len() == 12 + 4 * dimension
        && all_finite(components) {
        Some(components)
    } else {
        None
    }
}

/// Appends the little-endian encodings of `values`.
pub fn push_all_u32_le(out: &mut Vec<u8>, values: &[u32])
    ensures
        final(out)@ == old(out)@ + le32_concat(values@),
{
    let ghost start = out@;
    let mut i: usize = 0;
    while i < values.len()
        invariant
            i <= values.len(),
            out@ == start + le32_concat(values@.take(i as int)),
        decreases values.len() - i,
    {
        proof {
            lemma_le32_concat_push(values@.take(i as int), values@[i as int]);
            assert(values@.take(i + 1) =~= values@.take(i as int).push(values@[i as int]));
        }
        push_u32_le(out, values[i]);
        i = i + 1;
    }
    assert(values@.take(values@.len() as int) =~= values@);
}

/// Writes the format-1 blob of a vector.
///
/// Fails with `Invalid` when a component is not finite or the dimension exceeds `u32::MAX`.
pub fn encode_vector(components: &[u32]) -> (r: Result<Vec<u8>, Error>)
    ensures
        r is Ok <==> all_finite(components@) && components@.len() <= u32::MAX,
        r matches Ok(bytes) ==> bytes@ == vector_blob(components@),
        r matches Err(e) ==> e is Invalid,
{
    validate_vector_components(components)?;
    if components.len() > 0xffff_ffffusize {
        return Err(Error::Invalid("vector dimension exceeds u32".to_string()));
    }
    let mut bytes = magic_vec(0);
    push_u32_le(&mut bytes, components.len() as u32);
    push_all_u32_le(&mut bytes, components);
    Ok(bytes)
}

/// Reads a format-1 vector blob.
///
/// Succeeds exactly on well-formed blobs with finite components; other input fails with `Corrupt`.
pub fn decode_vector(bytes: &[u8]) -> (r: Result<Vec<u32>, Error>)
    ensures
        r is Ok <==> decoded_vector(bytes@) is Some,
        r matches Ok(v) ==> v@ == decoded_vector(bytes@)->0,
        r matches Err(e) ==> e is Corrupt,
{
    let magic = magic_vec(0);
    if bytes.len() < 12 || !starts_with(bytes, magic.as_slice()) {
        return Err(Error::Corrupt("invalid vector magic or header".to_string()));
    }
    let dimension = get_u32_le(bytes, 8);
    let ghost components = Seq::new(dimension as nat, |k: int| le32_at(bytes@, 12 + 4 * k));
    if (bytes.len() as u64) != 12 + 4 * (dimension as u64) {
        return Err(Error::Corrupt("vector byte length does not match header".to_string()));
    }
    let mut vector: Vec<u32> = Vec::new();
    let mut k: usize = 0;
    while k < dimension as usize
        invariant
            bytes.len() == 12 + 4 * dimension,
            components == Seq::new(dimension as nat, |q: int| le32_at(bytes@, 12 + 4 * q)),
            k <= dimension,
            vector@ == components.take(k as int),
            all_finite(vector@),
        decreases dimension - k,
    {
        let component = get_u32_le(bytes, 12 + 4 * k);
        if !is_finite_bits(component) {
            assert(!all_finite(components)) by {
                assert(!finite_bits(components[k as int]));
            }
            return Err(Error::Corrupt("vector components must be finite f32 values".to_string()));
        }
        vector.push(component);
        assert(components.take(k + 1) =~= components.take(k as int).push(component));
        k = k + 1;
    }
    assert(components.take(dimension as int) =~= components);
    Ok(vector)
}

/// Format-1 vector round trip: a finite vector is read back from its blob.
pub proof fn lemma_vector_round_trip(components: Seq<u32>)
    requires
        all_finite(components),
        components.len() <= u32::MAX,
    ensures
        decoded_vector(vector_blob(components)) == Some(components),
{
    lemma_le_round_trips();
    lemma_le32_concat_len(components);
    let bytes = vector_blob(components);
    let head = vector_magic() + spec_u32_to_le_bytes(components.len() as u32);
    let body = le32_concat(components);
    assert(bytes == head + body);
    assert(bytes.take(8) =~= vector_magic());
    assert(bytes.subrange(8, 12) =~= spec_u32_to_le_bytes(components.len() as u32));
    let decoded = Seq::new(components.len(), |k: int| le32_at(bytes, 12 + 4 * k));
    assert forall|k: int| 0 <= k < components.len() implies #[trigger] decoded[k]
        == components[k] by {
        lemma_le32_concat_at(components, k);
        assert(bytes.subrange(12 + 4 * k, 12 + 4 * k + 4) =~= body.subrange(4 * k, 4 * k + 4));
    }
    assert(decoded =~= components);
}

} // verus!

verus! {

/// The component sequences held by a sequence of vectors.
pub open spec fn row_views(rows: Seq<Vec<u32>>) -> Seq<Seq<u32>> {
    rows.map_values(|r: Vec<u32>| r@)
}

/// The components of all rows, row after row.
pub open spec fn flatten_rows(rows: Seq<Seq<u32>>) -> Seq<u32>
    decreases rows.len(),
{
    if rows.len() == 0 {
        Seq::empty()
    } else {
        flatten_rows(rows.drop_last()) + rows.last()
    }
}

/// A row-major matrix blob: magic, `u32` dimension, `u32` row count, components.
pub open spec fn matrix_blob(magic: Seq<u8>, dimension: u32, rows: Seq<Seq<u32>>) -> Seq<u8> {
    magic + spec_u32_to_le_bytes(dimension) + spec_u32_to_le_bytes(rows.len() as u32)
        + le32_concat(flatten_rows(rows))
}

/// Declared dimension of a matrix blob.
pub open spec fn matrix_dimension(bytes: Seq<u8>) -> int {
    le32_at(bytes, 8) as int
}

/// Declared row count of a matrix blob.
pub open spec fn matrix_count(bytes: Seq<u8>) -> int {
    le32_at(bytes, 12) as int
}

/// Component `c` of row `r` of a matrix blob.
pub open spec fn matrix_entry(bytes: Seq<u8>, r: int, c: int) -> u32 {
    le32_at(bytes, 16 + 4 * (r * matrix_dimension(bytes) + c))
}

/// The rows of a matrix blob.
pub open spec fn matrix_rows(bytes: Seq<u8>) -> Seq<Seq<u32>> {
    Seq::new(
        matrix_count(bytes) as nat,
        |r: int| Seq::new(matrix_dimension(bytes) as nat, |c: int| matrix_entry(bytes, r, c)),
    )
}

/// Whether `bytes` is a well-formed matrix blob with finite components.
pub open spec fn is_matrix(bytes: Seq<u8>, magic: Seq<u8>) -> bool {
    &&& bytes.len() >= 16
    &&& bytes.take(8) == magic
    &&& matrix_dimension(bytes) > 0
    &&& bytes.len() == 16 + 4 * (matrix_count(bytes) * matrix_dimension(bytes))
    &&& forall|r: int, c: int|
        0 <= r < matrix_count(bytes) && 0 <= c < matrix_dimension(bytes) ==> finite_bits(
            #[trigger] matrix_entry(bytes, r, c),
        )
}

/// The vectors of a well-formed format-2 vector shard, or `None`.
pub open spec fn decoded_vectors(bytes: Seq<u8>) -> Option<Seq<Seq<u32>>> {
    if is_matrix(bytes, vectors_magic()) {
        Some(matrix_rows(bytes))
    } else {
        None
    }
}

/// The centroids of a well-formed codebook of the expected dimension, or `None`.
pub open spec fn decoded_codebook(bytes: Seq<u8>, expected_dimension: int) -> Option<
    Seq<Seq<u32>>,
> {
    if is_matrix(bytes, codebook_magic()) && matrix_dimension(bytes) == expected_dimension {
        Some(matrix_rows(bytes))
    } else {
        None
    }
}

/// Whether every row of a matrix has `dimension` finite components.
pub open spec fn rows_shaped(rows: Seq<Seq<u32>>, dimension: int) -> bool {
    forall|r: int|
        0 <= r < rows.len() ==> (#[trigger] rows[r]).len() == dimension && all_finite(rows[r])
}

proof fn lemma_flatten_rows_push(rows: Seq<Seq<u32>>, row: Seq<u32>)
    ensures
        flatten_rows(rows.push(row)) == flatten_rows(rows) + row,
{
    assert(rows.push(row).drop_last() =~= rows);
}

/// Component `c` of row `r` sits at index `r * d + c` of the flattened rows.
proof fn lemma_flatten_rows_index(rows: Seq<Seq<u32>>, d: int, r: int, c: int)
    requires
        forall|q: int| 0 <= q < rows.len() ==> (#[trigger] rows[q]).len() == d,
        0 <= r < rows.len(),
        0 <= c < d,
    ensures
        flatten_rows(rows).len() == rows.len() * d,
        r * d + c < rows.len() * d,
        flatten_rows(rows)[r * d + c] == rows[r][c],
    decreases rows.len(),
{
    let n = rows.len() as int;
    let init = rows.drop_last();
    lemma_flatten_rows_len(init, d);
    assert(flatten_rows(rows) == flatten_rows(init) + rows.last());
    assert((n - 1) * d + d == n * d) by (nonlinear_arith);
    if r < n - 1 {
        lemma_flatten_rows_index(init, d, r, c);
    } else {
        assert(r * d == (n - 1) * d);
    }
    assert(r * d + c < n * d) by (nonlinear_arith)
        requires
            0 <= r < n,
            0 <= c < d,
    ;
}

proof fn lemma_flatten_rows_len(rows: Seq<Seq<u32>>, d: int)
    requires
        forall|q: int| 0 <= q < rows.len() ==> (#[trigger] rows[q]).len() == d,
    ensures
        flatten_rows(rows).len() == rows.len() * d,
    decreases rows.len(),
{
    if rows.len() > 0 {
        lemma_flatten_rows_len(rows.drop_last(), d);
        assert((rows.len() - 1) * d + d == rows.len() * d) by (nonlinear_arith);
    }
}

/// Writes a row-major matrix blob after checking the `u32` header fields.
fn encode_matrix(which: u8, rows: &[Vec<u32>], dimension: usize, check_finite: bool) -> (r: Result<
    Vec<u8>,
    Error,
>)
    requires
        which == 1 || which == 2,
    ensures
        r is Ok <==> dimension <= u32::MAX && rows@.len() <= u32::MAX && (check_finite ==> forall|
            q: int,
        |
            0 <= q < rows@.len() ==> all_finite(#[trigger] rows@[q]@)),
        r matches Ok(bytes) ==> bytes@ == matrix_blob(
            if which == 1 {
                vectors_magic()
            } else {
                codebook_magic()
            },
            dimension as u32,
            row_views(rows@),
        ),
        r matches Err(e) ==> e is Invalid,
{
    if dimension > 0xffff_ffffusize {
        return Err(Error::Invalid("vector dimension exceeds u32".to_string()));
    }
    if rows.len() > 0xffff_ffffusize {
        return Err(Error::Invalid("format-2 shard exceeds u32 rows".to_string()));
    }
    let mut bytes = magic_vec(which);
    push_u32_le(&mut bytes, dimension as u32);
    push_u32_le(&mut bytes, rows.len() as u32);
    let ghost head = bytes@;
    let ghost views = row_views(rows@);
    let mut i: usize = 0;
    while i < rows.len()
        invariant
            i <= rows.len(),
            views == row_views(rows@),
            bytes@ == head + le32_concat(flatten_rows(views.take(i as int))),
            check_finite ==> forall|q: int| 0 <= q < i ==> all_finite(#[trigger] rows@[q]@),
        decreases rows.len() - i,
    {
        if check_finite {
            if validate_vector_components(rows[i].as_slice()).is_err() {
                return Err(Error::Invalid("vector components must be finite f32 values".to_string()));
            }
        }
        proof {
            lemma_flatten_rows_push(views.take(i as int), views[i as int]);
            assert(views.take(i + 1) =~= views.take(i as int).push(views[i as int]));
            lemma_le32_concat_append(flatten_rows(views.take(i as int)), views[i as int]);
        }
        push_all_u32_le(&mut bytes, rows[i].as_slice());
        i = i + 1;
    }
    assert(views.take(rows@.len() as int) =~= views);
    Ok(bytes)
}

/// Encoding a concatenation concatenates the encodings.
pub proof fn lemma_le32_concat_append(a: Seq<u32>, b: Seq<u32>)
    ensures
        le32_concat(a + b) == le32_concat(a) + le32_concat(b),
    decreases b.len(),
{
    if b.len() == 0 {
        assert(a + b =~= a);
    } else {
        lemma_le32_concat_append(a, b.drop_last());
        assert((a + b).drop_last() =~= a + b.drop_last());
        assert(le32_concat(a + b) == le32_concat((a + b).drop_last()) + spec_u32_to_le_bytes(
            (a + b).last(),
        ));
    }
}

/// Writes a format-2 vector shard of `dimension`-component rows.
///
/// Fails with `Invalid` when the dimension or row count exceeds `u32::MAX` or a
/// component is not finite.
pub fn encode_vectors(rows: &[Vec<u32>], dimension: usize) -> (r: Result<Vec<u8>, Error>)
    ensures
        r is Ok <==> dimension <= u32::MAX && rows@.len() <= u32::MAX && forall|q: int|
            0 <= q < rows@.len() ==> all_finite(#[trigger] rows@[q]@),
        r matches Ok(bytes) ==> bytes@ == matrix_blob(
            vectors_magic(),
            dimension as u32,
            row_views(rows@),
        ),
        r matches Err(e) ==> e is Invalid,
{
    encode_matrix(1, rows, dimension, true)
}

/// Writes a centroid codebook of `dimension`-component rows.
///
/// Fails with `Invalid` when the dimension or centroid count exceeds `u32::MAX`.
pub fn encode_codebook(centroids: &[Vec<u32>], dimension: usize) -> (r: Result<Vec<u8>, Error>)
    ensures
        r is Ok <==> dimension <= u32::MAX && centroids@.len() <= u32::MAX,
        r matches Ok(bytes) ==> bytes@ == matrix_blob(
            codebook_magic(),
            dimension as u32,
            row_views(centroids@),
        ),
        r matches Err(e) ==> e is Invalid,
{
    encode_matrix(2, centroids, dimension, false)
}

/// Reads a row-major matrix blob.
fn decode_matrix(bytes: &[u8], which: u8) -> (r: Result<Vec<Vec<u32>>, Error>)
    requires
        which == 1 || which == 2,
    ensures
        r is Ok <==> is_matrix(
            bytes@,
            if which == 1 {
                vectors_magic()
            } else {
                codebook_magic()
            },
        ),
        r matches Ok(rows) ==> row_views(rows@) == matrix_rows(bytes@),
        r matches Err(e) ==> e is Corrupt,
{
    let magic = magic_vec(which);
    if bytes.len() < 16 || !starts_with(bytes, magic.as_slice()) {
        return Err(Error::Corrupt("invalid format-2 matrix header".to_string()));
    }
    let dimension = get_u32_le(bytes, 8);
    let count = get_u32_le(bytes, 12);
    if dimension == 0 {
        return Err(Error::Corrupt("format-2 vector dimension must be positive".to_string()));
    }
    assert((count as int) * (dimension as int) <= 0xffff_fffe_0000_0001) by (nonlinear_arith)
        requires
            count <= 0xffff_ffff,
            dimension <= 0xffff_ffff,
    ;
    let product: u128 = (count as u128) * (dimension as u128);
    let expected: u128 = 16 + 4 * product;
    if (bytes.len() as u128) != expected {
        return Err(Error::Corrupt("format-2 matrix byte length does not match header".to_string()));
    }
    let ghost d = dimension as int;
    let ghost n = count as int;
    let mut rows: Vec<Vec<u32>> = Vec::new();
    let mut r: usize = 0;
    let mut pos: usize = 16;
    while r < count as usize
        invariant
            d == matrix_dimension(bytes@),
            n == matrix_count(bytes@),
            n == count,
            d == dimension,
            d > 0,
            bytes.len() == 16 + 4 * (n * d),
            r <= n,
            pos == 16 + 4 * (r * d),
            rows@.len() == r,
            forall|q: int| 0 <= q < r ==> #[trigger] rows@[q]@ == matrix_rows(bytes@)[q],
            forall|q: int, c: int|
                0 <= q < r && 0 <= c < d ==> finite_bits(#[trigger] matrix_entry(bytes@, q, c)),
        decreases n - r,
    {
        let mut row: Vec<u32> = Vec::new();
        let mut c: usize = 0;
        assert((r + 1) * d <= n * d) by (nonlinear_arith)
            requires
                r < n,
                d > 0,
        ;
        assert((r + 1) * d == r * d + d) by (nonlinear_arith);
        while c < dimension as usize
            invariant
                d == matrix_dimension(bytes@),
                n == matrix_count(bytes@),
                d == dimension,
                bytes.len() == 16 + 4 * (n * d),
                r < n,
                (r + 1) * d <= n * d,
                (r + 1) * d == r * d + d,
                c <= d,
                pos == 16 + 4 * (r * d + c),
                row@.len() == c,
                forall|q: int| 0 <= q < c ==> #[trigger] row@[q] == matrix_entry(bytes@, r as int, q),
                forall|q: int| 0 <= q < c ==> finite_bits(#[trigger] row@[q]),
            decreases d - c,
        {
            assert(r * d + c < n * d) by (nonlinear_arith)
                requires
                    (r + 1) * d <= n * d,
                    c < d,
                    (r + 1) * d == r * d + d,
            ;
            let component = get_u32_le(bytes, pos);
            assert(component == matrix_entry(bytes@, r as int, c as int));
            if !is_finite_bits(component) {
                return Err(Error::Corrupt("vector components must be finite f32 values".to_string()));
            }
            row.push(component);
            pos = pos + 4;
            c = c + 1;
        }
        assert(row@ =~= matrix_rows(bytes@)[r as int]);
        assert forall|q: int, c: int| 0 <= q < r + 1 && 0 <= c < d implies finite_bits(
            #[trigger] matrix_entry(bytes@, q, c),
        ) by {
            if q == r {
                assert(row@[c] == matrix_entry(bytes@, q, c));
            }
        }
        rows.push(row);
        r = r + 1;
    }
    assert(row_views(rows@) =~= matrix_rows(bytes@));
    Ok(rows)
}

/// Reads a format-2 vector shard.
///
/// Succeeds exactly on well-formed shards with a positive dimension and finite
/// components; other input fails with `Corrupt`.
pub fn decode_vectors(bytes: &[u8]) -> (r: Result<Vec<Vec<u32>>, Error>)
    ensures
        r is Ok <==> decoded_vectors(bytes@) is Some,
        r matches Ok(rows) ==> row_views(rows@) == decoded_vectors(bytes@)->0,
        r matches Err(e) ==> e is Corrupt,
{
    decode_matrix(bytes, 1)
}

/// Reads a centroid codebook whose dimension must equal `expected_dimension`.
///
/// Succeeds exactly on well-formed codebooks of that dimension with finite
/// components; other input fails with `Corrupt`.
pub fn decode_codebook(bytes: &[u8], expected_dimension: usize) -> (r: Result<Vec<Vec<u32>>, Error>)
    ensures
        r is Ok <==> decoded_codebook(bytes@, expected_dimension as int) is Some,
        r matches Ok(rows) ==> row_views(rows@) == decoded_codebook(
            bytes@,
            expected_dimension as int,
        )->0,
        r matches Err(e) ==> e is Corrupt,
{
    if bytes.len() >= 16 {
        let dimension = get_u32_le(bytes, 8);
        if dimension as usize != expected_dimension {
            return Err(Error::Corrupt("format-2 codebook dimension does not match metadata".to_string()));
        }
    }
    decode_matrix(bytes, 2)
}

/// Matrix round trip: rows of `dimension` finite components are read back from their blob.
pub proof fn lemma_matrix_round_trip(magic: Seq<u8>, dimension: u32, rows: Seq<Seq<u32>>)
    requires
        magic.len() == 8,
        dimension > 0,
        rows.len() <= u32::MAX,
        rows_shaped(rows, dimension as int),
    ensures
        is_matrix(matrix_blob(magic, dimension, rows), magic),
        matrix_rows(matrix_blob(magic, dimension, rows)) == rows,
        matrix_dimension(matrix_blob(magic, dimension, rows)) == dimension,
{
    lemma_le_round_trips();
    let d = dimension as int;
    let n = rows.len() as int;
    let flat = flatten_rows(rows);
    let bytes = matrix_blob(magic, dimension, rows);
    let head = magic + spec_u32_to_le_bytes(dimension) + spec_u32_to_le_bytes(n as u32);
    assert(forall|q: int| 0 <= q < rows.len() ==> (#[trigger] rows[q]).len() == d);
    lemma_flatten_rows_len(rows, d);
    lemma_le32_concat_len(flat);
    assert(bytes == head + le32_concat(flat));
    assert(bytes.take(8) =~= magic);
    assert(bytes.subrange(8, 12) =~= spec_u32_to_le_bytes(dimension));
    assert(bytes.subrange(12, 16) =~= spec_u32_to_le_bytes(n as u32));
    assert forall|r: int, c: int| 0 <= r < n && 0 <= c < d implies #[trigger] matrix_entry(
        bytes,
        r,
        c,
    ) == rows[r][c] by {
        lemma_flatten_rows_index(rows, d, r, c);
        lemma_le32_concat_at(flat, r * d + c);
        let k = r * d + c;
        assert(bytes.subrange(16 + 4 * k, 16 + 4 * k + 4) =~= le32_concat(flat).subrange(
            4 * k,
            4 * k + 4,
        ));
    }
    assert forall|r: int, c: int| 0 <= r < n && 0 <= c < d implies finite_bits(
        #[trigger] matrix_entry(bytes, r, c),
    ) by {
        assert(matrix_entry(bytes, r, c) == rows[r][c]);
        assert(all_finite(rows[r]));
    }
    assert forall|r: int| 0 <= r < n implies #[trigger] matrix_rows(bytes)[r] == rows[r] by {
        assert(matrix_rows(bytes)[r] =~= rows[r]);
    }
    assert(matrix_rows(bytes) =~= rows);
}

/// Vector shard round trip: rows of `dimension` finite components are read back exactly.
pub proof fn lemma_vectors_round_trip(dimension: u32, rows: Seq<Seq<u32>>)
    requires
        dimension > 0,
        rows.len() <= u32::MAX,
        rows_shaped(rows, dimension as int),
    ensures
        decoded_vectors(matrix_blob(vectors_magic(), dimension, rows)) == Some(rows),
{
    lemma_matrix_round_trip(vectors_magic(), dimension, rows);
}

/// Codebook round trip: centroids are read back exactly when the expected dimension matches.
pub proof fn lemma_codebook_round_trip(dimension: u32, rows: Seq<Seq<u32>>)
    requires
        dimension > 0,
        rows.len() <= u32::MAX,
        rows_shaped(rows, dimension as int),
    ensures
        decoded_codebook(matrix_blob(codebook_magic(), dimension, rows), dimension as int) == Some(
            rows,
        ),
{
    lemma_matrix_round_trip(codebook_magic(), dimension, rows);
}

} // verus!
