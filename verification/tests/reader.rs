use git_vdb::index::{encode_posting, encode_sample, validate_sample};
use git_vdb::meta::{ivf_config_for, RootMeta};
use git_vdb::reader::{
    candidate_limit, centroid_order, exact_rows, payload_rows, probe_count, shard_list, shard_rows, query_is_exact, shard_path, validate_query, Admission,
    CandidateWalk, SnapshotReader, SnapshotSource,
};
use git_vdb::ids::{encode_ids, shard_for_id};
use git_vdb::shard::encode_payloads;
use git_vdb::vectors::{encode_codebook, encode_vectors};
use git_vdb::{CollectionConfig, Error, ObjectId, PointId};
use std::cell::RefCell;
use std::collections::BTreeMap;

struct Memory {
    blobs: BTreeMap<String, Vec<u8>>,
    reads: RefCell<Vec<String>>,
}

impl SnapshotSource for Memory {
    fn read_blob(&self, path: &str) -> Result<Vec<u8>, Error> {
        self.reads.borrow_mut().push(path.to_string());
        self.blobs
            .get(path)
            .cloned()
            .ok_or_else(|| Error::Corrupt(format!("missing {path}")))
    }
    fn list(&self, path: &str) -> Result<Vec<String>, Error> {
        let prefix = format!("{path}/");
        Ok(self
            .blobs
            .keys()
            .filter_map(|k| k.strip_prefix(&prefix).map(str::to_string))
            .collect())
    }
}

fn root() -> ObjectId {
    ObjectId("b02e98c1f919ec065ac342812a5ccf6b62bc4217".to_string())
}

fn memory_with_one_point() -> (Memory, u16) {
    let id = PointId::String("east".to_string());
    let shard = shard_for_id(&id);
    let mut blobs = BTreeMap::new();
    blobs.insert(shard_path("points/ids/", shard, ".bin"), encode_ids(&[id]).unwrap());
    blobs.insert(
        shard_path("points/vectors/", shard, ".f32le"),
        encode_vectors(&[vec![1.0f32.to_bits(), 0]], 2).unwrap(),
    );
    blobs.insert(
        shard_path("points/payloads/", shard, ".bin"),
        encode_payloads(&vec![b"{}".to_vec()]).unwrap(),
    );
    (Memory { blobs, reads: RefCell::new(Vec::new()) }, shard)
}

fn reader(memory: Memory) -> SnapshotReader<Memory> {
    let meta = RootMeta::new_v2(&CollectionConfig::new(2), 1, ivf_config_for(1));
    SnapshotReader::open(root(), memory, meta, 100).unwrap()
}

#[test]
fn shards_load_and_count_blob_reads() {
    let (memory, shard) = memory_with_one_point();
    let mut reader = reader(memory);
    let rows = reader.load_shard(shard).unwrap();
    assert_eq!(rows.ids.len(), 1);
    assert_eq!(rows.vectors[0], vec![1.0f32.to_bits(), 0]);
    let stats = reader.read_stats();
    assert_eq!(stats.blob_reads, 3);
    assert!(stats.blob_bytes > 100);
    let payloads = reader.load_payload_rows(shard, 1).unwrap();
    assert_eq!(payloads, vec![b"{}".to_vec()]);
    assert!(matches!(reader.load_payload_rows(shard, 2), Err(Error::Corrupt(_))));
    assert_eq!(reader.exact_shards().unwrap(), vec![shard]);
    assert_eq!(reader.read_stats().directory_reads, 1);
    let other = (shard + 1) % 64;
    assert!(reader.load_shard(other).is_err());
    assert!(reader.source().reads.borrow().iter().any(|p| p.starts_with("points/ids/")));
}

#[test]
fn shard_paths_are_canonical() {
    assert_eq!(shard_path("points/ids/", 10, ".bin"), "points/ids/00a.bin");
    assert_eq!(shard_path("", 63, ".f32le"), "03f.f32le");
}

#[test]
fn query_vectors_and_budgets_are_checked() {
    let meta = RootMeta::new_v2(
        &CollectionConfig::new(2).with_vector_space("m@1"),
        5000,
        ivf_config_for(5000),
    );
    assert!(validate_query(&[0, 0], None, &meta).is_ok());
    assert!(validate_query(&[0, 0], Some("m@1"), &meta).is_ok());
    assert!(matches!(validate_query(&[0, 0], Some("m@2"), &meta), Err(Error::Invalid(_))));
    assert!(matches!(validate_query(&[0], None, &meta), Err(Error::Invalid(_))));
    assert!(validate_query(&[f32::NAN.to_bits(), 0], None, &meta).is_err());
    assert!(!query_is_exact(None, &meta));
    assert!(query_is_exact(Some(true), &meta));
    assert_eq!(probe_count(0, false, 96, 64), 64);
    assert_eq!(probe_count(0, false, 8, 64), 8);
    assert_eq!(probe_count(0, true, 8, 64), 64);
    assert_eq!(probe_count(3, true, 8, 64), 3);
    assert_eq!(candidate_limit(0, 10_000), 10_000);
    assert_eq!(candidate_limit(7, 10_000), 7);
}

#[test]
fn candidate_walks_reject_repeats_and_respect_budgets() {
    let mut walk = CandidateWalk::new(false, 1);
    walk.probe();
    assert!(walk.visit(0, 1).is_ok());
    assert!(walk.visit(3, 0).is_ok());
    assert!(matches!(walk.visit(0, 1), Err(Error::Corrupt(_))));
    assert_eq!(walk.candidates_discovered(), 2);
    assert_eq!(walk.consider(false), Admission::Skip);
    assert_eq!(walk.consider(true), Admission::Score);
    assert_eq!(walk.consider(true), Admission::Stop);
    assert!(walk.candidate_limit_exhausted());
    assert_eq!(walk.vectors_scored(), 1);
    assert_eq!(walk.buckets_probed(), 1);
    assert!(walk.probe_limit_exhausted(1, 4));
    assert!(!walk.probe_limit_exhausted(4, 4));
    let mut exact = CandidateWalk::new(true, 0);
    assert_eq!(exact.consider(true), Admission::Score);
    assert_eq!(exact.consider(true), Admission::Score);
}

#[test]
fn written_samples_validate() {
    let ids = vec![PointId::String("a".to_string()), PointId::UInt(9)];
    let vectors = vec![vec![1, 2], vec![3, 4]];
    let bytes = encode_sample(&ids, &vectors).unwrap();
    assert!(validate_sample(&bytes, 2).is_ok());
    assert!(validate_sample(&bytes, 1).is_err());
    assert!(encode_posting(&[]).is_ok());
}

#[test]
fn centroids_are_probed_best_score_first() {
    let keys = vec![5u64, 9, 5, 1, 9];
    assert_eq!(centroid_order(&keys, 3), vec![1, 4, 0]);
    assert_eq!(centroid_order(&keys, 10), vec![1, 4, 0, 2, 3]);
    assert!(centroid_order(&keys, 0).is_empty());
    assert!(centroid_order(&Vec::new(), 4).is_empty());
}

#[test]
fn shard_rows_check_the_vectors_against_the_ids() {
    let ids = || vec![PointId::UInt(1), PointId::UInt(2)];
    let two = encode_vectors(&vec![vec![1, 2], vec![3, 4]], 2).unwrap();
    let rows = shard_rows(ids(), &two, 2).unwrap();
    assert_eq!(rows.ids.len(), 2);
    assert_eq!(rows.vectors, vec![vec![1, 2], vec![3, 4]]);
    assert!(matches!(shard_rows(ids(), &two, 3), Err(Error::Corrupt(_))));
    assert!(matches!(shard_rows(vec![PointId::UInt(1)], &two, 2), Err(Error::Corrupt(_))));
    assert!(matches!(shard_rows(Vec::new(), &two, 2), Err(Error::Corrupt(_))));
    assert!(matches!(shard_rows(ids(), &[1, 2, 3], 2), Err(Error::Corrupt(_))));
}

#[test]
fn payload_rows_must_match_the_point_count() {
    let rows = vec![b"{}".to_vec(), b"{\"a\":1}".to_vec()];
    let bytes = encode_payloads(&rows).unwrap();
    assert_eq!(payload_rows(&bytes, 2).unwrap(), rows);
    assert!(matches!(payload_rows(&bytes, 3), Err(Error::Corrupt(_))));
    assert!(matches!(payload_rows(b"not a shard", 0), Err(Error::Corrupt(_))));
}

#[test]
fn shard_lists_are_sorted_and_canonical() {
    let names = |v: &[&str]| v.iter().map(|s| s.to_string()).collect::<Vec<String>>();
    assert_eq!(shard_list(names(&["03f.bin", "000.bin", "00a.bin"])).unwrap(), vec![0, 10, 63]);
    assert_eq!(shard_list(Vec::new()).unwrap(), Vec::<u16>::new());
    assert!(matches!(shard_list(names(&["001.bin", "001.bin"])), Err(Error::Corrupt(_))));
    assert!(matches!(shard_list(names(&["040.bin"])), Err(Error::Corrupt(_))));
    assert!(matches!(shard_list(names(&["00A.bin"])), Err(Error::Corrupt(_))));
    assert!(matches!(shard_list(names(&["001.f32le"])), Err(Error::Corrupt(_))));
}

#[test]
fn codebooks_and_postings_are_read_from_their_paths() {
    let (mut memory, shard) = memory_with_one_point();
    memory.blobs.insert(
        "index/ivf-flat-v2/codebook.bin".to_string(),
        encode_codebook(&[vec![1.0f32.to_bits(), 0]], 2).unwrap(),
    );
    memory.blobs.insert(
        "index/ivf-flat-v2/postings/0000.bin".to_string(),
        encode_posting(&[(shard, 0)]).unwrap(),
    );
    let mut reader = reader(memory);
    let codebook = reader.load_codebook().unwrap();
    assert_eq!(codebook, vec![vec![1.0f32.to_bits(), 0]]);
    assert_eq!(reader.load_posting(0).unwrap(), vec![(shard, 0)]);
    assert!(reader.load_posting(1).is_err());
    let reads = reader.source().reads.borrow().clone();
    assert_eq!(
        reads,
        vec![
            "index/ivf-flat-v2/codebook.bin".to_string(),
            "index/ivf-flat-v2/postings/0000.bin".to_string(),
            "index/ivf-flat-v2/postings/0001.bin".to_string(),
        ]
    );
    assert_eq!(reader.read_stats().blob_reads, 3);
}

#[test]
fn codebooks_must_hold_the_recorded_centroid_count() {
    let (mut memory, _) = memory_with_one_point();
    memory.blobs.insert(
        "index/ivf-flat-v2/codebook.bin".to_string(),
        encode_codebook(&[vec![1.0f32.to_bits(), 0], vec![0, 1.0f32.to_bits()]], 2).unwrap(),
    );
    let mut reader = reader(memory);
    assert!(matches!(reader.load_codebook(), Err(Error::Corrupt(_))));
}

#[test]
fn exact_rows_list_every_row_and_check_the_total() {
    assert_eq!(exact_rows(&vec![(3, 2), (5, 1)], 3).unwrap(), vec![(3, 0), (3, 1), (5, 0)]);
    assert_eq!(exact_rows(&Vec::new(), 0).unwrap(), Vec::<(u16, u32)>::new());
    assert!(matches!(exact_rows(&vec![(3, 2)], 3), Err(Error::Corrupt(_))));
    assert!(matches!(exact_rows(&vec![(3, 2), (4, 2)], 3), Err(Error::Corrupt(_))));
}
