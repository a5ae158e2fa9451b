use git_vdb::ids::id_hash;
use git_vdb::lsh::{
    bucket_edits, bucket_path, hamming_masks, point_entry_ok, BucketEdit, point_path, probe_sequence, projection_positive, signature_name,
    BucketScan, Offer,
};
use git_vdb::PointId;
use sha2::{Digest, Sha256};

#[test]
fn masks_enumerate_combinations_in_order() {
    assert_eq!(hamming_masks(4, 0, 10), vec![0]);
    assert_eq!(hamming_masks(4, 1, 10), vec![1, 2, 4, 8]);
    assert_eq!(hamming_masks(4, 2, 10), vec![3, 5, 9, 6, 10, 12]);
    assert_eq!(hamming_masks(4, 2, 2), vec![3, 5]);
    assert_eq!(hamming_masks(3, 4, 10), Vec::<u64>::new());
    assert_eq!(hamming_masks(64, 1, 100).len(), 64);
    assert_eq!(hamming_masks(64, 1, 100)[63], 1u64 << 63);
}

#[test]
fn signature_names_are_zero_padded_lowercase_hex() {
    assert_eq!(signature_name(0xab, 12), "0ab");
    assert_eq!(signature_name(0, 1), "0");
    assert_eq!(signature_name(0, 64), "0000000000000000");
    assert_eq!(signature_name(u64::MAX, 64), "ffffffffffffffff");
    assert_eq!(signature_name(0x1234, 4), "1234");
}

#[test]
fn probes_visit_nearer_buckets_of_every_table_first() {
    let probes = probe_sequence(&[0b00, 0b11], 2, 10);
    assert_eq!(
        probes,
        vec![(0, 0), (1, 3), (0, 1), (0, 2), (1, 2), (1, 1), (0, 3), (1, 0)]
    );
    assert_eq!(probe_sequence(&[0b00, 0b11], 2, 3), vec![(0, 0), (1, 3), (0, 1)]);
    assert_eq!(probe_sequence(&[5], 4, 0), Vec::<(usize, u64)>::new());
}

fn reference_sign(seed: u64, table: u64, bit: u64, dimension: u64) -> bool {
    let mut hasher = Sha256::new();
    hasher.update(b"git-vdb/lsh-v1/projection\0");
    hasher.update(seed.to_le_bytes());
    hasher.update(table.to_le_bytes());
    hasher.update(bit.to_le_bytes());
    hasher.update(dimension.to_le_bytes());
    hasher.finalize()[0] & 1 == 1
}

#[test]
fn projection_signs_come_from_the_digest_of_their_coordinates() {
    let seed = 0x6769_742d_7664_6231;
    for table in 0..3u64 {
        for bit in 0..5u64 {
            for dimension in 0..4u64 {
                assert_eq!(
                    projection_positive(seed, table, bit, dimension),
                    reference_sign(seed, table, bit, dimension)
                );
            }
        }
    }
}

#[test]
fn bucket_scans_skip_duplicates_and_stop_at_the_budget() {
    let mut scan = BucketScan::new(2);
    assert_eq!(scan.offer("bb"), Offer::Added);
    assert_eq!(scan.offer("aa"), Offer::Added);
    assert_eq!(scan.offer("bb"), Offer::Duplicate);
    assert_eq!(scan.collected(), 2);
    assert!(!scan.candidate_limit_exhausted());
    assert_eq!(scan.offer("cc"), Offer::Stop);
    assert!(scan.candidate_limit_exhausted());
    assert_eq!(scan.offer("aa"), Offer::Duplicate);
    assert_eq!(scan.collected(), 2);
}

#[test]
fn legacy_paths_are_named_by_digests_and_signatures() {
    let id = PointId::UInt(7);
    let (prefix, hash) = point_path(&id);
    assert_eq!(hash, id_hash(&id));
    assert_eq!(hash.len(), 64);
    assert_eq!(prefix, hash[..2]);
    assert!(point_entry_ok(&prefix, &hash));
    assert!(!point_entry_ok("zz", &hash));
    assert!(!point_entry_ok(&prefix, &hash[..63]));
    assert_eq!(
        bucket_path(3, 0xab, 12),
        ("0003".to_string(), "0a".to_string(), "0ab".to_string())
    );
    assert_eq!(bucket_path(0x12345, 1, 1), ("12345".to_string(), "1".to_string(), "1".to_string()));
}

fn lsh_signature(vector: &[f32], seed: u64, table: u64, bits: u64) -> u64 {
    let mut signature = 0u64;
    for bit in 0..bits {
        let projection: f64 = vector
            .iter()
            .enumerate()
            .map(|(d, c)| {
                let sign = if projection_positive(seed, table, bit, d as u64) { 1.0 } else { -1.0 };
                *c as f64 * sign
            })
            .sum();
        if projection >= 0.0 {
            signature |= 1 << bit;
        }
    }
    signature
}

#[test]
fn lsh_signature_and_probe_order_golden() {
    let seed = git_vdb::IndexConfig::default().projection_seed;
    let vector = [1.0f32, -2.0, 0.5];
    let exact = [lsh_signature(&vector, seed, 0, 4), lsh_signature(&vector, seed, 1, 4)];
    assert_eq!(exact[0], 0x0);
    assert_eq!(exact[1], 0x4);
    assert_eq!(
        probe_sequence(&exact, 4, 6),
        vec![(0, 0), (1, 4), (0, 1), (0, 2), (0, 4), (0, 8)]
    );
}

#[test]
fn bucket_edits_move_a_point_between_buckets() {
    assert_eq!(bucket_edits(Some(3), Some(5)), vec![BucketEdit::Remove(3), BucketEdit::Insert(5)]);
    assert_eq!(bucket_edits(Some(3), Some(3)), vec![BucketEdit::Insert(3)]);
    assert_eq!(bucket_edits(None, Some(7)), vec![BucketEdit::Insert(7)]);
    assert_eq!(bucket_edits(Some(2), None), vec![BucketEdit::Remove(2)]);
    assert!(bucket_edits(None, None).is_empty());
}
