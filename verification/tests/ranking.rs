use git_vdb::ranking::{ids_distinct, top_k, Ranked};
use git_vdb::PointId;
use std::cmp::Ordering;

fn key(score: f64) -> u64 {
    let bits = score.to_bits();
    if bits >> 63 == 1 {
        !bits
    } else {
        bits | (1 << 63)
    }
}

fn canonical(id: &PointId) -> Vec<u8> {
    id.canonical_bytes()
}

fn scored(id: PointId, score: f32, row: usize) -> Ranked {
    Ranked { key: key(score as f64), id, row }
}

#[test]
fn exact_top_k_selection_matches_full_sort_for_ties_and_typed_ids() {
    let points = vec![
        scored(PointId::String("b".to_string()), 1.0, 0),
        scored(PointId::String("a".to_string()), 1.0, 1),
        scored(PointId::UInt(7), 1.0, 2),
        scored(PointId::String("zero".to_string()), 0.0, 3),
        scored(PointId::UInt(8), -0.0, 4),
        scored(PointId::String("low".to_string()), -1.0, 5),
    ];
    let mut expected: Vec<&Ranked> = points.iter().collect();
    expected.sort_by(|l, r| match r.key.cmp(&l.key) {
        Ordering::Equal => canonical(&l.id).cmp(&canonical(&r.id)),
        other => other,
    });
    for limit in 0..=points.len() + 1 {
        let actual = top_k(&points, limit);
        let want: Vec<usize> = expected.iter().take(limit).map(|p| p.row).collect();
        assert_eq!(actual.iter().map(|p| p.row).collect::<Vec<_>>(), want);
    }
}

#[test]
fn negative_zero_ranks_below_positive_zero() {
    let points = vec![
        scored(PointId::UInt(1), -0.0, 0),
        scored(PointId::UInt(2), 0.0, 1),
    ];
    let best = top_k(&points, 1);
    assert_eq!(best[0].row, 1);
}

#[test]
fn candidate_ids_are_checked_for_repeats() {
    let c = |id: PointId, row: usize| Ranked { key: 1, id, row };
    assert!(ids_distinct(&Vec::new()));
    assert!(ids_distinct(&vec![
        c(PointId::UInt(3), 0),
        c(PointId::String("3".to_string()), 1),
        c(PointId::UInt(1), 2),
    ]));
    assert!(!ids_distinct(&vec![
        c(PointId::UInt(3), 0),
        c(PointId::UInt(1), 1),
        c(PointId::UInt(3), 2),
    ]));
}
