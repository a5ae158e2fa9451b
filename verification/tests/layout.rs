use git_vdb::ids::shard_for_id;
use git_vdb::index::{check_posting_names, posting_file};
use git_vdb::layout::{
    assignment_ok, build_postings, check_entries, entry_names_distinct, seeds_fit, index_matches, layout, point_shards, seed_positions, EntryKind, TreeLevel,
};
use git_vdb::points::canonical_point_set;
use git_vdb::sample::sample_rows;
use git_vdb::{CollectionConfig, Point, PointId};
use sha2::{Digest, Sha256};

fn point(id: PointId) -> Point {
    Point { id, vector: vec![1.0f32.to_bits(), 0.0f32.to_bits()], payload: vec![] }
}

fn sorted_points(n: u64) -> Vec<Point> {
    let points: Vec<Point> = (0..n).map(|k| point(PointId::UInt(k))).collect();
    canonical_point_set(points, &CollectionConfig::new(2)).unwrap()
}

#[test]
fn every_point_lands_in_exactly_one_shard_group() {
    let points = sorted_points(300);
    let groups = point_shards(&points).unwrap();
    let mut seen = vec![0usize; points.len()];
    for pair in groups.windows(2) {
        assert!(pair[0].0 < pair[1].0);
    }
    for (shard, rows) in &groups {
        assert!(*shard < 64);
        assert!(!rows.is_empty());
        for pair in rows.windows(2) {
            assert!(pair[0] < pair[1]);
        }
        for &row in rows {
            assert_eq!(shard_for_id(&points[row].id), *shard);
            seen[row] += 1;
        }
    }
    assert!(seen.iter().all(|&count| count == 1));
}

#[test]
fn an_empty_point_set_has_no_shard_groups() {
    assert!(point_shards(&Vec::new()).unwrap().is_empty());
}

#[test]
fn seeds_spread_from_the_first_sample_to_the_last() {
    assert_eq!(seed_positions(10, 4), vec![0, 3, 6, 9]);
    assert_eq!(seed_positions(7, 1), vec![0]);
    assert_eq!(seed_positions(3, 3), vec![0, 1, 2]);
    assert_eq!(seed_positions(100, 3), vec![0, 49, 99]);
    assert!(seed_positions(0, 0).is_empty());
}

#[test]
fn postings_list_rows_within_their_shard_by_centroid() {
    let groups = vec![(2u16, vec![0usize, 3]), (5u16, vec![1usize, 2])];
    let assignment = vec![1usize, 0, 1, 1];
    let postings = build_postings(&groups, &assignment, 3);
    assert_eq!(postings.len(), 3);
    assert_eq!(postings[0], vec![(5u16, 0u32)]);
    assert_eq!(postings[1], vec![(2u16, 0u32), (2, 1), (5, 1)]);
    assert!(postings[2].is_empty());
}

#[test]
fn the_sample_is_in_digest_order() {
    let points = sorted_points(200);
    let rows = sample_rows(&points);
    assert_eq!(rows.len(), 200);
    let digest = |row: usize| Sha256::digest(points[row].id.canonical_bytes()).to_vec();
    for pair in rows.windows(2) {
        assert!(digest(pair[0]) < digest(pair[1]));
    }
    let mut sorted = rows.clone();
    sorted.sort();
    assert_eq!(sorted, (0..200).collect::<Vec<_>>());
}

#[test]
fn the_sample_of_mixed_ids_matches_a_full_sort() {
    let mut points: Vec<Point> = (0..40).map(|k| point(PointId::UInt(k))).collect();
    points.extend((0..40).map(|k| point(PointId::String(format!("doc-{k}")))));
    let points = canonical_point_set(points, &CollectionConfig::new(2)).unwrap();
    let mut expected: Vec<usize> = (0..points.len()).collect();
    expected.sort_by(|&a, &b| {
        Sha256::digest(points[a].id.canonical_bytes())
            .cmp(&Sha256::digest(points[b].id.canonical_bytes()))
            .then_with(|| points[a].id.canonical_bytes().cmp(&points[b].id.canonical_bytes()))
    });
    assert_eq!(sample_rows(&points), expected);
}

#[test]
fn trees_must_hold_exactly_their_layout() {
    let root = layout(TreeLevel::Root);
    assert_eq!(
        root,
        vec![
            ("index".to_string(), EntryKind::Tree),
            ("meta.json".to_string(), EntryKind::Blob),
            ("points".to_string(), EntryKind::Tree)
        ]
    );
    let actual = vec![
        ("points".to_string(), EntryKind::Tree),
        ("index".to_string(), EntryKind::Tree),
        ("meta.json".to_string(), EntryKind::Blob),
    ];
    assert!(check_entries(&actual, &root).is_ok());
    let wrong_kind = vec![
        ("points".to_string(), EntryKind::Blob),
        ("index".to_string(), EntryKind::Tree),
        ("meta.json".to_string(), EntryKind::Blob),
    ];
    assert!(matches!(check_entries(&wrong_kind, &root), Err(git_vdb::Error::Corrupt(_))));
    let extra = vec![
        ("points".to_string(), EntryKind::Tree),
        ("index".to_string(), EntryKind::Tree),
        ("meta.json".to_string(), EntryKind::Blob),
        ("notes".to_string(), EntryKind::Blob),
    ];
    assert!(matches!(check_entries(&extra, &root), Err(git_vdb::Error::Corrupt(_))));
    let renamed = vec![
        ("points".to_string(), EntryKind::Tree),
        ("index".to_string(), EntryKind::Tree),
        ("meta".to_string(), EntryKind::Blob),
    ];
    assert!(matches!(check_entries(&renamed, &root), Err(git_vdb::Error::Corrupt(_))));
    assert_eq!(layout(TreeLevel::Index), vec![("ivf-flat-v2".to_string(), EntryKind::Tree)]);
    assert_eq!(layout(TreeLevel::Ivf).len(), 3);
    assert_eq!(layout(TreeLevel::Points)[1].0, "payloads");
}

#[test]
fn stored_indexes_are_compared_bit_for_bit() {
    let centroids = vec![vec![1u32, 2], vec![3, 4]];
    let postings = vec![vec![(0u16, 1u32)], vec![]];
    assert!(index_matches(&centroids, &postings, &centroids.clone(), &postings.clone()));
    assert!(!index_matches(&centroids, &postings, &vec![vec![1u32, 2], vec![3, 5]], &postings.clone()));
    assert!(!index_matches(&centroids, &postings, &centroids.clone(), &vec![vec![(0u16, 2u32)], vec![]]));
    assert!(!index_matches(&centroids, &postings, &centroids.clone(), &vec![vec![(0u16, 1u32)]]));
}

#[test]
fn posting_files_are_named_by_four_hex_digits() {
    assert_eq!(posting_file(0), "0000.bin");
    assert_eq!(posting_file(0x1abc), "1abc.bin");
    let names: Vec<String> = (0..3u16).map(posting_file).collect();
    assert!(check_posting_names(&names, 3).is_ok());
    assert!(matches!(check_posting_names(&names, 4), Err(git_vdb::Error::Corrupt(_))));
    let wrong = vec!["0000.bin".to_string(), "0002.bin".to_string()];
    assert!(matches!(check_posting_names(&wrong, 2), Err(git_vdb::Error::Corrupt(_))));
}

#[test]
fn index_inputs_are_checked_before_use() {
    let groups = vec![(2u16, vec![0usize, 1]), (5u16, vec![2usize])];
    assert!(assignment_ok(&groups, &vec![0, 1, 1], 2));
    assert!(!assignment_ok(&groups, &vec![0, 2, 1], 2));
    assert!(!assignment_ok(&groups, &vec![0, 1], 2));
    assert!(seeds_fit(10, 4));
    assert!(seeds_fit(0, 0));
    assert!(!seeds_fit(0, 1));
    assert!(!seeds_fit(usize::MAX, 2));
    let entries = |names: &[&str]| names.iter().map(|n| (n.to_string(), EntryKind::Blob)).collect::<Vec<_>>();
    assert!(entry_names_distinct(&entries(&["a", "b", "c"])));
    assert!(!entry_names_distinct(&entries(&["a", "b", "a"])));
}
