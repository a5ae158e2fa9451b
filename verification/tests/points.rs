use git_vdb::filter::MatchValue;
use git_vdb::points::{
    apply_mutations, canonical_point_set, count_matching, get_selection, inferred_dimension,
    points_sorted, validate_point,
};
use git_vdb::{CollectionConfig, Condition, Error, Filter, Json, Point, PointId, SnapshotMutation};

fn pid(s: &str) -> PointId {
    PointId::String(s.to_string())
}

fn point(id: PointId, v: [f32; 2], kind: &str) -> Point {
    Point {
        id,
        vector: v.iter().map(|x| x.to_bits()).collect(),
        payload: vec![("kind".to_string(), Json::String(kind.to_string()))],
    }
}

fn ids(points: &[Point]) -> Vec<String> {
    points.iter().map(|p| format!("{:?}", p.id)).collect()
}

fn kind_is(kind: &str) -> Filter {
    Filter {
        must: vec![Condition::Field {
            key: "kind".to_string(),
            matches: Some(MatchValue { value: Json::String(kind.to_string()) }),
            range: None,
        }],
        ..Filter::default()
    }
}

fn config() -> CollectionConfig {
    CollectionConfig::new(2)
}

fn base() -> Vec<Point> {
    canonical_point_set(
        vec![
            point(pid("b"), [1.0, 0.0], "keep"),
            point(PointId::UInt(7), [0.0, 1.0], "drop"),
            point(pid("a"), [1.0, 1.0], "keep"),
        ],
        &config(),
    )
    .unwrap()
}

#[test]
fn builds_are_in_canonical_id_order() {
    let points = base();
    assert_eq!(ids(&points), vec!["String(\"a\")", "String(\"b\")", "UInt(7)"]);
}

#[test]
fn builds_reject_duplicates_and_wrong_dimensions() {
    let dup = vec![point(pid("a"), [1.0, 0.0], "x"), point(pid("a"), [0.0, 1.0], "y")];
    assert!(matches!(canonical_point_set(dup, &config()), Err(Error::Invalid(_))));
    let mut wrong = point(pid("a"), [1.0, 0.0], "x");
    wrong.vector.push(0);
    assert!(matches!(canonical_point_set(vec![wrong], &config()), Err(Error::Invalid(_))));
    let nan = Point { id: pid("n"), vector: vec![f32::NAN.to_bits(), 0], payload: vec![] };
    assert!(validate_point(&nan, &config()).is_err());
}

#[test]
fn upsert_then_read_returns_the_written_point() {
    let points = apply_mutations(
        base(),
        &config(),
        vec![SnapshotMutation::Upsert { point: point(pid("b"), [0.5, 0.5], "changed") }],
    )
    .unwrap();
    assert_eq!(points.len(), 3);
    let b = points.iter().find(|p| matches!(&p.id, PointId::String(s) if s == "b")).unwrap();
    assert_eq!(b.vector, vec![0.5f32.to_bits(), 0.5f32.to_bits()]);
    assert!(matches!(&b.payload[0].1, Json::String(s) if s == "changed"));
    let added = apply_mutations(
        points,
        &config(),
        vec![SnapshotMutation::Upsert { point: point(PointId::UInt(1), [1.0, 0.0], "new") }],
    )
    .unwrap();
    assert_eq!(ids(&added), vec!["String(\"a\")", "String(\"b\")", "UInt(1)", "UInt(7)"]);
}

#[test]
fn mutations_apply_in_order() {
    let points = apply_mutations(
        base(),
        &config(),
        vec![
            SnapshotMutation::DeleteFilter { filter: kind_is("drop") },
            SnapshotMutation::DeleteIds { ids: vec![pid("a"), pid("missing")] },
            SnapshotMutation::Upsert { point: point(pid("c"), [1.0, 0.0], "drop") },
        ],
    )
    .unwrap();
    assert_eq!(ids(&points), vec!["String(\"b\")", "String(\"c\")"]);
}

#[test]
fn invalid_batches_are_rejected_whole() {
    assert!(matches!(apply_mutations(base(), &config(), vec![]), Err(Error::Invalid(_))));
    let twice = vec![
        SnapshotMutation::Upsert { point: point(pid("x"), [1.0, 0.0], "k") },
        SnapshotMutation::DeleteIds { ids: vec![pid("x")] },
        SnapshotMutation::Upsert { point: point(pid("x"), [1.0, 0.0], "k") },
    ];
    assert!(matches!(apply_mutations(base(), &config(), twice), Err(Error::Invalid(_))));
    let empty_delete = vec![SnapshotMutation::DeleteIds { ids: vec![] }];
    assert!(matches!(apply_mutations(base(), &config(), empty_delete), Err(Error::Invalid(_))));
}

#[test]
fn first_write_dimension_is_inferred() {
    assert!(matches!(inferred_dimension(&vec![]), Err(Error::Invalid(_))));
    let empty = Point { id: pid("e"), vector: vec![], payload: vec![] };
    assert!(inferred_dimension(&vec![empty]).is_err());
    let two = point(pid("two"), [1.0, 0.0], "k");
    let three = Point { id: pid("three"), vector: vec![0, 0, 0], payload: vec![] };
    assert!(inferred_dimension(&vec![two, three]).is_err());
    assert_eq!(inferred_dimension(&base()).unwrap(), 2);
}

#[test]
fn retrieval_filters_skips_and_limits_in_id_order() {
    let points = base();
    assert_eq!(get_selection(&points, &vec![], &None, 0, None), vec![0, 1, 2]);
    assert_eq!(get_selection(&points, &vec![], &None, 1, Some(1)), vec![1]);
    assert_eq!(get_selection(&points, &vec![], &None, 5, None), Vec::<usize>::new());
    assert_eq!(get_selection(&points, &vec![PointId::UInt(7), pid("a")], &None, 0, None), vec![0, 2]);
    assert_eq!(get_selection(&points, &vec![], &Some(kind_is("keep")), 0, None), vec![0, 1]);
    assert_eq!(get_selection(&points, &vec![pid("b")], &Some(kind_is("drop")), 0, None), Vec::<usize>::new());
    assert_eq!(count_matching(&points, &kind_is("keep")), 2);
    assert_eq!(count_matching(&points, &Filter::default()), 3);
}

#[test]
fn builders_assemble_points_filters_and_mutations() {
    let p = Point::new(pid("a"), vec![1.0f32.to_bits(), 0.0f32.to_bits()])
        .with_payload(vec![("kind".to_string(), Json::String("doc".to_string()))]);
    assert!(matches!(&p.id, PointId::String(s) if s == "a"));
    assert_eq!(p.vector.len(), 2);
    assert_eq!(p.payload.len(), 1);
    assert!(matches!(SnapshotMutation::upsert(p), SnapshotMutation::Upsert { .. }));
    assert!(matches!(
        SnapshotMutation::delete_ids(vec![PointId::UInt(3)]),
        SnapshotMutation::DeleteIds { ref ids } if ids.len() == 1
    ));
    let f = Filter::must(vec![
        Condition::matches("kind".to_string(), Json::String("doc".to_string())),
        Condition::has_id(vec![pid("a")]),
    ]);
    assert_eq!(f.must.len(), 2);
    assert!(f.should.is_empty() && f.must_not.is_empty());
    assert!(matches!(&f.must[0], Condition::Field { key, matches: Some(_), range: None } if key == "kind"));
    assert!(matches!(SnapshotMutation::delete_filter(f), SnapshotMutation::DeleteFilter { .. }));
    let r = Condition::range("n".to_string(), git_vdb::Range { gte: Some(1), ..Default::default() });
    assert!(matches!(r, Condition::Field { matches: None, range: Some(_), .. }));
}

#[test]
fn shard_rows_join_into_points() {
    let ids = vec![pid("a"), PointId::UInt(2)];
    let payloads = vec![vec![("k".to_string(), Json::Null)], Vec::new()];
    let vectors = vec![vec![1, 2], vec![3, 4]];
    let points = git_vdb::points::shard_points(ids, payloads, vectors, 2).unwrap();
    assert_eq!(points.len(), 2);
    assert!(matches!(&points[0].id, PointId::String(s) if s == "a"));
    assert_eq!(points[0].payload.len(), 1);
    assert_eq!(points[1].vector, vec![3, 4]);
    assert!(matches!(
        git_vdb::points::shard_points(Vec::new(), Vec::new(), Vec::new(), 2),
        Err(Error::Corrupt(_))
    ));
    assert!(matches!(
        git_vdb::points::shard_points(vec![pid("a")], vec![Vec::new()], vec![vec![1]], 2),
        Err(Error::Corrupt(_))
    ));
    assert!(matches!(
        git_vdb::points::shard_points(vec![pid("a")], Vec::new(), vec![vec![1, 2]], 2),
        Err(Error::Corrupt(_))
    ));
}

#[test]
fn point_order_is_checked() {
    let p = |id: PointId| Point::new(id, vec![0]);
    assert!(points_sorted(&Vec::new()));
    assert!(points_sorted(&vec![p(pid("a")), p(pid("b"))]));
    assert!(!points_sorted(&vec![p(pid("b")), p(pid("a"))]));
    assert!(!points_sorted(&vec![p(pid("a")), p(pid("a"))]));
}
