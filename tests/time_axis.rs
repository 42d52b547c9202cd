use gridmerge::timeaxis::{has_new_instant, merge_times, position_of, resolve_axis, AxisWrite};

#[test]
fn merge_inserts_between_known_instants() {
    let (merged, positions) = merge_times(&vec![100, 300], &vec![200]);
    assert_eq!(merged, vec![100, 200, 300]);
    assert_eq!(positions, vec![1]);
}

#[test]
fn merge_sorts_and_drops_duplicates() {
    let (merged, positions) = merge_times(&vec![5, 1], &vec![3, 5, 3]);
    assert_eq!(merged, vec![1, 3, 5]);
    assert_eq!(positions, vec![1, 2, 1]);
}

#[test]
fn merge_positions_point_at_incoming_instants() {
    let existing = vec![-40, 10, 70, 90];
    let incoming = vec![95, -50, 70, 20];
    let (merged, positions) = merge_times(&existing, &incoming);
    assert_eq!(merged, vec![-50, -40, 10, 20, 70, 90, 95]);
    for i in 0..incoming.len() {
        assert_eq!(merged[positions[i]], incoming[i]);
    }
    for w in merged.windows(2) {
        assert!(w[0] < w[1]);
    }
}

#[test]
fn merge_of_empty_axes() {
    let (merged, positions) = merge_times(&vec![], &vec![]);
    assert!(merged.is_empty());
    assert!(positions.is_empty());
    let (merged, positions) = merge_times(&vec![], &vec![7, 3]);
    assert_eq!(merged, vec![3, 7]);
    assert_eq!(positions, vec![1, 0]);
}

#[test]
fn position_of_finds_first_index() {
    assert_eq!(position_of(&vec![4, 8, 8], 8), Some(1));
    assert_eq!(position_of(&vec![4, 8], 5), None);
}

#[test]
fn new_instants_are_detected() {
    assert!(has_new_instant(&vec![1, 2, 3], &vec![2, 4]));
    assert!(!has_new_instant(&vec![1, 2, 3], &vec![3, 1]));
    assert!(!has_new_instant(&vec![1], &vec![]));
}

#[test]
fn new_location_takes_incoming_axis() {
    let incoming = vec![10, 20, 30];
    let update = resolve_axis(None, &incoming);
    assert_eq!(update.write, AxisWrite::Insert);
    assert_eq!(update.merged, incoming);
    assert_eq!(update.positions, vec![0, 1, 2]);
}

#[test]
fn known_location_merges_and_replaces() {
    let stored = vec![100, 300];
    let update = resolve_axis(Some(&stored), &vec![200]);
    assert_eq!(update.write, AxisWrite::Replace);
    assert_eq!(update.merged, vec![100, 200, 300]);
    assert_eq!(update.positions, vec![1]);
}

#[test]
fn second_ingestion_leaves_axis_unchanged() {
    let stored = vec![100, 300];
    let incoming = vec![200, 400];
    let first = resolve_axis(Some(&stored), &incoming);
    assert_eq!(first.write, AxisWrite::Replace);
    let second = resolve_axis(Some(&first.merged), &incoming);
    assert_eq!(second.write, AxisWrite::Unchanged);
    assert_eq!(second.merged, first.merged);
    assert_eq!(second.positions, first.positions);
}
