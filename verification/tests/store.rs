use git_vdb::reader::{SnapshotReadStats, SnapshotReader, SnapshotSource};
use git_vdb::meta::{ivf_config_for, RootMeta};
use git_vdb::store::{query_vectors, document_points, Document, TextQuery, first_write_move, StepOutcome, WriteMove, WriteStage, WRITE_ATTEMPTS, check_expected_root, collection_names, delete_plan, pull_step, upsert_plan, PullStep, document_payload, split_document, Database, DeleteSelector, Store, TextCollection};
use git_vdb::{CollectionConfig, Error, Filter, Json, ObjectId, PointId, SnapshotMutation};

struct Empty;

impl SnapshotSource for Empty {
    fn read_blob(&self, _path: &str) -> Result<Vec<u8>, Error> {
        Err(Error::Invalid("empty source".to_string()))
    }
    fn list(&self, _path: &str) -> Result<Vec<String>, Error> {
        Ok(Vec::new())
    }
}

fn store() -> Store {
    Store::from_database(Database { path: "/tmp/vectors.git".to_string() })
}

#[test]
fn collection_names_come_sorted_from_their_refs() {
    let refs = vec![
        "refs/git-vdb/collections/zeta".to_string(),
        "refs/heads/main".to_string(),
        "refs/git-vdb/collections/alpha".to_string(),
        "refs/git-vdb/collections/Beta".to_string(),
    ];
    assert_eq!(collection_names(&refs), vec!["Beta", "alpha", "zeta"]);
    assert_eq!(store().list_collections(&refs), vec!["Beta", "alpha", "zeta"]);
}

#[test]
fn handles_are_lazy_and_named() {
    let s = store();
    let handle = s.collection("docs");
    assert_eq!(handle.name(), "docs");
    assert_eq!(handle.database().path, s.advanced().path);
}

#[test]
fn delete_selectors_become_mutations() {
    assert!(matches!(DeleteSelector::default().into_mutations(), Err(Error::Invalid(_))));
    let ms = DeleteSelector { ids: vec![PointId::UInt(1)], filter: Some(Filter::default()) }
        .into_mutations()
        .unwrap();
    assert_eq!(ms.len(), 2);
    assert!(matches!(&ms[0], SnapshotMutation::DeleteIds { ids } if ids.len() == 1));
    assert!(matches!(&ms[1], SnapshotMutation::DeleteFilter { .. }));
}

#[test]
fn model_identity_is_required_and_cannot_change() {
    let s = store();
    assert!(TextCollection::new(s.collection("docs"), (), "  ", None).is_err());
    let fresh = TextCollection::new(s.collection("docs"), (), " model/a@1\n", None).unwrap();
    assert_eq!(fresh.model_id(), "model/a@1");
    assert_eq!(fresh.vectors().name(), "docs");
    let same = TextCollection::new(s.collection("docs"), (), "model/a@1", Some(Some("model/a@1".to_string())));
    assert!(same.is_ok());
    let other = TextCollection::new(s.collection("docs"), (), "model/b@1", Some(Some("model/a@1".to_string())));
    assert!(matches!(other, Err(Error::Invalid(_))));
    let unnamed = TextCollection::new(s.collection("docs"), (), "model/b@1", Some(None));
    assert!(unnamed.is_err());
}

#[test]
fn readers_open_only_valid_format_two_roots() {
    let config = CollectionConfig::new(2);
    let root = ObjectId("b02e98c1f919ec065ac342812a5ccf6b62bc4217".to_string());
    let meta = RootMeta::new_v2(&config, 10, ivf_config_for(10));
    let reader = SnapshotReader::open(root.clone(), Empty, meta, 321).unwrap();
    assert_eq!(
        reader.read_stats(),
        SnapshotReadStats { blob_reads: 1, blob_bytes: 321, directory_reads: 0 }
    );
    assert_eq!(reader.config().dimension, 2);
    let bad_root = ObjectId("wrong".to_string());
    let meta = RootMeta::new_v2(&config, 10, ivf_config_for(10));
    assert!(matches!(SnapshotReader::open(bad_root, Empty, meta, 1), Err(Error::Invalid(_))));
    let v1 = RootMeta::new_v1(&config, 10);
    assert!(matches!(SnapshotReader::open(root.clone(), Empty, v1, 1), Err(Error::Invalid(_))));
    let stale = RootMeta::new_v2(&config, 10, ivf_config_for(1000));
    assert!(matches!(SnapshotReader::open(root, Empty, stale, 1), Err(Error::Corrupt(_))));
}

fn keys(members: &[(String, Json)]) -> Vec<&str> {
    members.iter().map(|(k, _)| k.as_str()).collect()
}

#[test]
fn document_text_joins_the_metadata_in_key_order() {
    let metadata = vec![
        ("author".to_string(), Json::String("ann".into())),
        ("kind".to_string(), Json::String("guide".into())),
    ];
    let payload = document_payload(metadata, "A document about the east".into()).unwrap();
    assert_eq!(keys(&payload), vec!["author", "document", "kind"]);
    match &payload[1].1 {
        Json::String(text) => assert_eq!(text, "A document about the east"),
        other => panic!("unexpected {other:?}"),
    }
    assert_eq!(keys(&document_payload(vec![], "x".into()).unwrap()), vec!["document"]);
}

#[test]
fn document_metadata_may_not_use_the_reserved_key() {
    let metadata = vec![("document".to_string(), Json::Null)];
    assert!(matches!(document_payload(metadata, "x".into()), Err(Error::Invalid(_))));
}

#[test]
fn hits_give_back_their_document_and_metadata() {
    let payload = vec![
        ("document".to_string(), Json::String("north wind".into())),
        ("kind".to_string(), Json::String("guide".into())),
    ];
    let (document, rest) = split_document(payload).unwrap();
    assert_eq!(document, "north wind");
    assert_eq!(keys(&rest), vec!["kind"]);
    let missing = vec![("kind".to_string(), Json::Null)];
    assert!(matches!(split_document(missing), Err(Error::Corrupt(_))));
    let not_text = vec![("document".to_string(), Json::Bool(true))];
    assert!(matches!(split_document(not_text), Err(Error::Corrupt(_))));
}

#[test]
fn writes_check_the_expected_root() {
    let actual = ObjectId("abc123".to_string());
    assert!(check_expected_root(&actual, None).is_ok());
    assert!(check_expected_root(&actual, Some(&ObjectId("abc123".to_string()))).is_ok());
    match check_expected_root(&actual, Some(&ObjectId("def456".to_string()))) {
        Err(Error::StaleRoot { expected, actual }) => {
            assert_eq!(expected.0, "def456");
            assert_eq!(actual.0, "abc123");
        }
        other => panic!("expected a stale root, got {other:?}"),
    }
}

fn root(text: &str) -> ObjectId {
    ObjectId(text.to_string())
}

fn one_point(id: &str) -> git_vdb::Point {
    git_vdb::Point::new(PointId::String(id.to_string()), vec![1.0f32.to_bits()])
}

#[test]
fn upserts_are_planned_in_order_after_the_checks() {
    let current = root("aaa");
    let plan = upsert_plan(false, vec![one_point("x"), one_point("y")], &current, Some(&root("aaa"))).unwrap();
    assert_eq!(plan.len(), 2);
    assert!(matches!(&plan[0], SnapshotMutation::Upsert { point } if matches!(&point.id, PointId::String(s) if s == "x")));
    assert!(matches!(&plan[1], SnapshotMutation::Upsert { point } if matches!(&point.id, PointId::String(s) if s == "y")));
    assert!(matches!(upsert_plan(true, vec![one_point("x")], &current, None), Err(Error::ReadOnly)));
    assert!(matches!(upsert_plan(false, Vec::new(), &current, Some(&root("bbb"))), Err(Error::Invalid(_))));
    assert!(matches!(upsert_plan(false, vec![one_point("x")], &current, Some(&root("bbb"))), Err(Error::StaleRoot { .. })));
}

#[test]
fn deletions_are_planned_after_the_checks() {
    let current = root("aaa");
    let selector = DeleteSelector { ids: vec![PointId::UInt(1)], filter: Some(Filter::default()) };
    let plan = delete_plan(false, selector, &current, None).unwrap();
    assert_eq!(plan.len(), 2);
    assert!(matches!(plan[0], SnapshotMutation::DeleteIds { .. }));
    assert!(matches!(plan[1], SnapshotMutation::DeleteFilter { .. }));
    assert!(matches!(delete_plan(true, DeleteSelector::default(), &current, None), Err(Error::ReadOnly)));
    assert!(matches!(delete_plan(false, DeleteSelector::default(), &current, None), Err(Error::Invalid(_))));
    let selector = DeleteSelector { ids: vec![PointId::UInt(1)], filter: None };
    assert!(matches!(delete_plan(false, selector, &current, Some(&root("ccc"))), Err(Error::StaleRoot { .. })));
}

#[test]
fn pulls_only_fast_forward() {
    let fetched = root("new");
    assert_eq!(pull_step(None, &fetched, false).unwrap(), PullStep::Create);
    assert_eq!(pull_step(Some(&root("new")), &fetched, false).unwrap(), PullStep::FastForward);
    assert_eq!(pull_step(Some(&root("old")), &fetched, true).unwrap(), PullStep::FastForward);
    assert!(matches!(pull_step(Some(&root("other")), &fetched, false), Err(Error::Invalid(_))));
}

#[test]
fn first_writes_create_then_retry_races_a_bounded_number_of_times() {
    assert_eq!(first_write_move(WriteStage::Open, 0, StepOutcome::Done, false), WriteMove::Run(WriteStage::Upsert, 0));
    assert_eq!(first_write_move(WriteStage::Open, 0, StepOutcome::Missing, false), WriteMove::Run(WriteStage::Create, 0));
    assert_eq!(first_write_move(WriteStage::Open, 0, StepOutcome::Failed, false), WriteMove::Finish);
    assert_eq!(first_write_move(WriteStage::Create, 2, StepOutcome::Done, false), WriteMove::Run(WriteStage::Upsert, 2));
    assert_eq!(first_write_move(WriteStage::Create, 2, StepOutcome::Raced, false), WriteMove::Run(WriteStage::Open, 3));
    assert_eq!(first_write_move(WriteStage::Create, 2, StepOutcome::Failed, false), WriteMove::Finish);
    assert_eq!(first_write_move(WriteStage::Upsert, 0, StepOutcome::Done, false), WriteMove::Finish);
    assert_eq!(first_write_move(WriteStage::Upsert, 0, StepOutcome::Raced, false), WriteMove::Run(WriteStage::Open, 1));
    assert_eq!(first_write_move(WriteStage::Upsert, WRITE_ATTEMPTS - 1, StepOutcome::Raced, false), WriteMove::GiveUp);
    assert_eq!(WRITE_ATTEMPTS, 8);
}

#[test]
fn document_metadata_must_be_an_object() {
    let doc = || Document::new(PointId::String("id".to_string()), "text".to_string());
    assert!(matches!(doc().with_metadata(Json::Array(vec![Json::Null])), Err(Error::Invalid(_))));
    let with = doc()
        .with_metadata(Json::Object(vec![("source".to_string(), Json::String("guide.md".into()))]))
        .unwrap();
    assert_eq!(keys(&with.metadata), vec!["source"]);
    assert_eq!(with.text, "text");
}

#[test]
fn embedded_documents_become_points_with_their_text() {
    let a = Document::new(PointId::String("a".to_string()), "east".to_string())
        .with_metadata(Json::Object(vec![("source".to_string(), Json::String("guide.md".into()))]))
        .unwrap();
    let b = Document::new(PointId::UInt(7), "north".to_string());
    let points = document_points(vec![a, b], vec![vec![1.0f32.to_bits()], vec![0.5f32.to_bits()]]).unwrap();
    assert_eq!(points.len(), 2);
    assert!(matches!(&points[0].id, PointId::String(s) if s == "a"));
    assert_eq!(points[0].vector, vec![1.0f32.to_bits()]);
    assert_eq!(keys(&points[0].payload), vec!["document", "source"]);
    assert!(matches!(points[1].id, PointId::UInt(7)));
    assert_eq!(keys(&points[1].payload), vec!["document"]);
    assert!(matches!(&points[1].payload[0].1, Json::String(t) if t == "north"));

    assert!(matches!(document_points(Vec::new(), Vec::new()), Err(Error::Invalid(_))));
    let one = Document::new(PointId::UInt(1), "x".to_string());
    assert!(matches!(document_points(vec![one], Vec::new()), Err(Error::Invalid(_))));
    let reserved = Document::new(PointId::UInt(1), "x".to_string())
        .with_metadata(Json::Object(vec![("document".to_string(), Json::Null)]))
        .unwrap();
    assert!(matches!(document_points(vec![reserved], vec![vec![0]]), Err(Error::Invalid(_))));
}

#[test]
fn text_queries_default_to_ten_documents() {
    let q = TextQuery::new("east".to_string());
    assert_eq!(q.text, "east");
    assert_eq!(q.limit, 10);
    assert!(q.filter.is_none());
    assert_eq!((q.params.exact, q.params.probes, q.params.candidate_limit), (None, 0, 0));
    let q = q
        .limit(3)
        .with_filter(Filter::default())
        .with_params(git_vdb::QueryParams { exact: Some(true), probes: 4, candidate_limit: 9 });
    assert_eq!(q.limit, 3);
    assert!(q.filter.is_some());
    assert_eq!((q.params.exact, q.params.probes, q.params.candidate_limit), (Some(true), 4, 9));
}

#[test]
fn first_writes_check_an_expected_vector_space() {
    assert_eq!(first_write_move(WriteStage::Open, 0, StepOutcome::Done, true), WriteMove::Run(WriteStage::CheckSpace, 0));
    assert_eq!(first_write_move(WriteStage::Create, 1, StepOutcome::Done, true), WriteMove::Run(WriteStage::CheckSpace, 1));
    assert_eq!(first_write_move(WriteStage::CheckSpace, 1, StepOutcome::Done, true), WriteMove::Run(WriteStage::Upsert, 1));
    assert_eq!(first_write_move(WriteStage::CheckSpace, 1, StepOutcome::Failed, true), WriteMove::Finish);
    assert!(git_vdb::store::check_vector_space(Some("compass-v1"), "compass-v1").is_ok());
    assert!(matches!(git_vdb::store::check_vector_space(Some("compass-v2"), "compass-v1"), Err(Error::Invalid(_))));
    assert!(matches!(git_vdb::store::check_vector_space(None, "compass-v1"), Err(Error::Invalid(_))));
}

#[test]
fn model_mismatches_fail_before_inference() {
    let s = store();
    let built = Some(Some("compass-v1".to_string()));
    assert!(TextCollection::new(s.collection("docs"), (), "compass-v1", built.clone()).is_ok());
    assert!(matches!(
        TextCollection::new(s.collection("docs"), (), "compass-v2", built),
        Err(Error::Invalid(_))
    ));
    assert!(matches!(
        TextCollection::new(s.collection("docs"), (), "compass-v2", Some(Some("other".to_string()))),
        Err(Error::Invalid(_))
    ));
    assert!(TextCollection::new(s.collection("docs"), (), " ", None).is_err());
}

#[test]
fn malformed_document_vectors_are_rejected() {
    let doc = Document::new(PointId::String("a".to_string()), "x".to_string());
    let points = document_points(vec![doc], vec![vec![f32::NAN.to_bits(), 0.0f32.to_bits()]]).unwrap();
    assert!(matches!(
        git_vdb::points::canonical_point_set(points, &CollectionConfig::new(2)),
        Err(Error::Invalid(_))
    ));
    let doc = Document::new(PointId::String("a".to_string()), "x".to_string());
    assert!(matches!(document_points(vec![doc], vec![vec![0], vec![0]]), Err(Error::Invalid(_))));
}

#[test]
fn text_queries_pair_with_one_vector_each() {
    let q = |t: &str| TextQuery::new(t.to_string());
    let pairs = query_vectors(vec![q("east"), q("north")], vec![vec![1], vec![2]]).unwrap();
    assert_eq!(pairs.len(), 2);
    assert_eq!(pairs[0].0.text, "east");
    assert_eq!(pairs[1].1, vec![2]);
    assert!(matches!(query_vectors(vec![q("east")], vec![vec![1], vec![2]]), Err(Error::Invalid(_))));
    assert!(query_vectors(Vec::new(), Vec::new()).unwrap().is_empty());
}
