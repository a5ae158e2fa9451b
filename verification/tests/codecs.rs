use git_vdb::ids::{decode_ids, encode_ids, id_hash, shard_for_id};
use git_vdb::index::{
    centroid_count, decode_posting, encode_posting, parse_shard_name, read_u32, validate_sample,
    MAX_CENTROIDS,
};
use git_vdb::shard::{decode_payloads, encode_payloads};
use git_vdb::vectors::{
    decode_codebook, decode_vector, decode_vectors, encode_codebook, encode_vector, encode_vectors,
    validate_vector_components,
};
use git_vdb::{Error, PointId};

fn bits(values: &[f32]) -> Vec<u32> {
    values.iter().map(|v| v.to_bits()).collect()
}

#[test]
fn vector_fixture_is_stable() {
    let bytes = encode_vector(&bits(&[1.0, -2.5])).unwrap();
    assert_eq!(
        hex::encode(&bytes),
        "4754564442563031020000000000803f000020c0"
    );
}

#[test]
fn typed_ids_do_not_collide() {
    assert_ne!(
        id_hash(&PointId::String("1".to_string())),
        id_hash(&PointId::UInt(1))
    );
}

#[test]
fn codecs_round_trip_typed_ids_and_reject_corruption() {
    let points = [
        (PointId::String("a".to_string()), bits(&[1.0, 0.0])),
        (PointId::UInt(7), bits(&[0.0, 1.0])),
    ];
    let payload = br#"{"kind":"test"}"#.to_vec();
    for (id, vector) in points.iter() {
        let shard = shard_for_id(id);
        let ids = vec![id.clone()];
        let decoded = decode_ids(&encode_ids(&ids).unwrap(), shard).unwrap();
        assert_eq!(format!("{:?}", decoded[0]), format!("{:?}", id));
        let rows = vec![payload.clone()];
        assert_eq!(decode_payloads(&encode_payloads(&rows).unwrap()).unwrap()[0], payload);
        let vectors = vec![vector.clone()];
        assert_eq!(decode_vectors(&encode_vectors(&vectors, 2).unwrap()).unwrap()[0], *vector);
    }
    assert!(decode_vectors(b"broken").is_err());
    assert!(decode_posting(b"broken").is_err());
    assert_eq!(centroid_count(usize::MAX), MAX_CENTROIDS);
}

#[test]
fn single_vectors_round_trip_and_reject_non_finite_components() {
    let v = bits(&[0.5, -0.0, 3.25]);
    assert_eq!(decode_vector(&encode_vector(&v).unwrap()).unwrap(), v);
    assert!(matches!(encode_vector(&bits(&[f32::NAN])), Err(Error::Invalid(_))));
    assert!(matches!(validate_vector_components(&bits(&[1.0, f32::INFINITY])), Err(Error::Invalid(_))));
    assert!(validate_vector_components(&bits(&[1.0, f32::MIN_POSITIVE])).is_ok());
    assert!(matches!(decode_vector(b"GTVDBV01"), Err(Error::Corrupt(_))));
}

#[test]
fn codebooks_check_their_dimension() {
    let rows = vec![bits(&[1.0, 2.0]), bits(&[3.0, 4.0])];
    let bytes = encode_codebook(&rows, 2).unwrap();
    assert_eq!(decode_codebook(&bytes, 2).unwrap(), rows);
    assert!(matches!(decode_codebook(&bytes, 3), Err(Error::Corrupt(_))));
    let mismatched = encode_vectors(&rows, 3).unwrap();
    assert!(matches!(decode_vectors(&mismatched), Err(Error::Corrupt(_))));
}

#[test]
fn posting_lists_must_be_canonical() {
    let posting = vec![(0u16, 1u32), (0, 2), (5, 0)];
    let bytes = encode_posting(&posting).unwrap();
    assert_eq!(bytes.len(), 12 + 6 * 3);
    assert_eq!(decode_posting(&bytes).unwrap(), posting);
    let unordered = encode_posting(&[(1u16, 0u32), (0, 5)]).unwrap();
    assert!(matches!(decode_posting(&unordered), Err(Error::Corrupt(_))));
    let bad_shard = encode_posting(&[(64u16, 0u32)]).unwrap();
    assert!(matches!(decode_posting(&bad_shard), Err(Error::Corrupt(_))));
    let mut truncated = bytes.clone();
    truncated.pop();
    assert!(decode_posting(&truncated).is_err());
}

#[test]
fn id_shards_reject_rows_of_other_shards_and_unsorted_rows() {
    let a = PointId::String("a".to_string());
    let shard = shard_for_id(&a);
    let bytes = encode_ids(&[a.clone()]).unwrap();
    let other = (shard + 1) % 64;
    assert!(matches!(decode_ids(&bytes, other), Err(Error::Corrupt(_))));
    assert!(shard < 64);
    assert_eq!(id_hash(&a).len(), 64);
}

#[test]
fn centroid_counts_round_to_powers_of_two() {
    assert_eq!(centroid_count(0), 0);
    assert_eq!(centroid_count(1), 1);
    assert_eq!(centroid_count(2), 1);
    assert_eq!(centroid_count(3), 2);
    assert_eq!(centroid_count(100), 8);
    assert_eq!(centroid_count(144), 16);
    assert_eq!(centroid_count(10_000), 128);
    assert_eq!(centroid_count(1_000_000), 1024);
    assert_eq!(centroid_count(100_000_000), 4096);
}

#[test]
fn shard_names_are_three_lowercase_hex_digits() {
    assert_eq!(parse_shard_name("000.bin", ".bin").unwrap(), 0);
    assert_eq!(parse_shard_name("03f.bin", ".bin").unwrap(), 63);
    assert_eq!(parse_shard_name("01a.f32le", ".f32le").unwrap(), 26);
    assert!(matches!(parse_shard_name("040.bin", ".bin"), Err(Error::Corrupt(_))));
    assert!(parse_shard_name("01A.bin", ".bin").is_err());
    assert!(parse_shard_name("1a.bin", ".bin").is_err());
    assert!(parse_shard_name("+1a.bin", ".bin").is_err());
    assert!(parse_shard_name("01a.bin", ".f32le").is_err());
}

#[test]
fn u32_fields_must_be_four_bytes() {
    assert_eq!(read_u32(&[1, 0, 0, 0]).unwrap(), 1);
    assert_eq!(read_u32(&[0, 0, 0, 1]).unwrap(), 1 << 24);
    assert!(matches!(read_u32(&[1, 0, 0]), Err(Error::Corrupt(_))));
}

fn sample_blob(rows: &[Vec<u8>]) -> Vec<u8> {
    let mut bytes = b"GTV2SMP\0".to_vec();
    bytes.extend_from_slice(&(rows.len() as u32).to_le_bytes());
    for id in rows {
        bytes.extend_from_slice(&(id.len() as u32).to_le_bytes());
        bytes.extend_from_slice(id);
        bytes.extend_from_slice(&[7u8; 32]);
    }
    bytes
}

#[test]
fn samples_need_valid_typed_ids_and_exact_lengths() {
    let mut uint = b"u\0".to_vec();
    uint.extend_from_slice(&5u64.to_be_bytes());
    let text = b"s\0hello".to_vec();
    let good = sample_blob(&[text.clone(), uint.clone()]);
    assert!(validate_sample(&good, 2).is_ok());
    assert!(matches!(validate_sample(&good, 3), Err(Error::Corrupt(_))));
    let mut trailing = good.clone();
    trailing.push(0);
    assert!(validate_sample(&trailing, 2).is_err());
    let bad_utf8 = sample_blob(&[b"s\0\xff".to_vec()]);
    assert!(validate_sample(&bad_utf8, 1).is_err());
    let short_uint = sample_blob(&[b"u\0\x01".to_vec()]);
    assert!(validate_sample(&short_uint, 1).is_err());
    assert!(validate_sample(b"broken", 0).is_err());
    assert!(validate_sample(&sample_blob(&[]), 0).is_ok());
}
