use git_vdb::diff::{names_ascending, config_equal, diff_points, json_equal, object_sharing};
use git_vdb::points::canonical_point_set;
use git_vdb::{CollectionConfig, Json, JsonNumber, Point, PointId};

fn number(text: &str, key: u64) -> Json {
    Json::Number(JsonNumber { key, text: text.to_string() })
}

fn point(id: u64, v: [f32; 2], payload: Vec<(String, Json)>) -> Point {
    Point { id: PointId::UInt(id), vector: v.iter().map(|x| x.to_bits()).collect(), payload }
}

fn set(points: Vec<Point>) -> Vec<Point> {
    canonical_point_set(points, &CollectionConfig::new(2)).unwrap()
}

fn uints(ids: &[PointId]) -> Vec<u64> {
    ids.iter()
        .map(|id| match id {
            PointId::UInt(v) => *v,
            PointId::String(_) => panic!("unexpected string ID"),
        })
        .collect()
}

#[test]
fn a_point_set_does_not_differ_from_itself() {
    let left = set(vec![
        point(1, [1.0, 0.0], vec![("a".into(), number("1", 7))]),
        point(2, [0.0, 1.0], vec![]),
    ]);
    let right = set(vec![
        point(1, [1.0, 0.0], vec![("a".into(), number("1", 7))]),
        point(2, [0.0, 1.0], vec![]),
    ]);
    let d = diff_points(&left, &right);
    assert!(d.added.is_empty() && d.removed.is_empty() && d.changed.is_empty());
}

#[test]
fn additions_removals_and_changes_are_reported_in_id_order() {
    let left = set(vec![
        point(1, [1.0, 0.0], vec![]),
        point(2, [0.0, 1.0], vec![]),
        point(3, [1.0, 1.0], vec![("k".into(), Json::String("x".into()))]),
        point(4, [0.0, 0.0], vec![]),
    ]);
    let right = set(vec![
        point(2, [0.0, 2.0], vec![]),
        point(3, [1.0, 1.0], vec![("k".into(), Json::String("y".into()))]),
        point(4, [-0.0, 0.0], vec![]),
        point(5, [1.0, 0.0], vec![]),
        point(6, [1.0, 0.0], vec![]),
    ]);
    let d = diff_points(&left, &right);
    assert_eq!(uints(&d.removed), vec![1]);
    assert_eq!(uints(&d.added), vec![5, 6]);
    assert_eq!(uints(&d.changed), vec![2, 3]);
}

#[test]
fn integers_and_floats_are_different_json_values() {
    assert!(!json_equal(&number("1", 9), &number("1.0", 9)));
    assert!(json_equal(&number("0.0", 5), &number("-0.0", 5)));
    assert!(!json_equal(&number("9007199254740993", 4), &number("9007199254740992", 4)));
    assert!(json_equal(
        &Json::Array(vec![Json::Null, Json::Bool(true)]),
        &Json::Array(vec![Json::Null, Json::Bool(true)])
    ));
    assert!(!json_equal(&Json::Array(vec![Json::Null]), &Json::Array(vec![])));
    assert!(!json_equal(
        &Json::Object(vec![("a".into(), Json::Null)]),
        &Json::Object(vec![("b".into(), Json::Null)])
    ));
}

#[test]
fn object_sharing_counts_objects_and_bytes() {
    let left = vec![("0a".to_string(), 10usize), ("1b".into(), 20), ("2c".into(), 30)];
    let right = vec![("1b".to_string(), 20usize), ("3d".into(), 5)];
    let (shared, left_unique, right_unique) = object_sharing(&left, &right);
    assert_eq!((shared.objects, shared.bytes), (1, 20));
    assert_eq!((left_unique.objects, left_unique.bytes), (2, 40));
    assert_eq!((right_unique.objects, right_unique.bytes), (1, 5));
}

#[test]
fn configurations_compare_field_by_field() {
    let a = CollectionConfig::new(3);
    assert!(config_equal(&a, &CollectionConfig::new(3)));
    assert!(!config_equal(&a, &CollectionConfig::new(4)));
    assert!(!config_equal(&a, &CollectionConfig::new(3).with_vector_space("text")));
}

#[test]
fn object_lists_are_checked_for_order() {
    let objects = |names: &[&str]| names.iter().map(|n| (n.to_string(), 1usize)).collect::<Vec<_>>();
    assert!(names_ascending(&objects(&["0a", "1b", "ff"])));
    assert!(names_ascending(&Vec::new()));
    assert!(!names_ascending(&objects(&["1b", "0a"])));
    assert!(!names_ascending(&objects(&["0a", "0a"])));
}
