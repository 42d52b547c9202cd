use gridmerge::align::{align, merge_column, new_column, overwrite_at};
use gridmerge::columns::VariableColumns;
use gridmerge::ingest::{ingest_level, LevelWrite};
use gridmerge::timeaxis::resolve_axis;

fn same(a: &[f64], b: &[f64]) -> bool {
    a.len() == b.len() && a.iter().zip(b).all(|(x, y)| (x.is_nan() && y.is_nan()) || x == y)
}

#[test]
fn align_splices_into_existing_column() {
    let mut col = vec![5.0, 7.0];
    align(&mut col, &vec![6.0], &vec![1], f64::NAN);
    assert_eq!(col, vec![5.0, 6.0, 7.0]);
}

#[test]
fn align_into_empty_column_without_gaps() {
    let mut col: Vec<f64> = Vec::new();
    align(&mut col, &vec![1.0, 2.0, 3.0], &vec![0, 1, 2], f64::NAN);
    assert_eq!(col, vec![1.0, 2.0, 3.0]);
}

#[test]
fn align_pads_with_absent_marker() {
    let mut col: Vec<f64> = Vec::new();
    align(&mut col, &vec![1.0, 2.0], &vec![2, 4], f64::NAN);
    assert!(same(&col, &[f64::NAN, f64::NAN, 1.0, f64::NAN, 2.0]));
    let mut col = vec![9.0];
    align(&mut col, &vec![4.0, 5.0], &vec![1, 5], f64::NAN);
    assert!(same(&col, &[9.0, 4.0, f64::NAN, f64::NAN, f64::NAN, 5.0]));
}

#[test]
fn align_reaches_past_every_position() {
    let mut col = vec![1, 2, 3];
    align(&mut col, &vec![7, 8, 9], &vec![0, 6, 2], -1);
    assert_eq!(col, vec![7, 1, 9, 2, 3, -1, -1, 8]);
    assert!(col.len() >= 7);
}

#[test]
fn overwrite_replaces_samples_in_place() {
    let mut col = vec![1.0, f64::NAN, 3.0, f64::NAN];
    overwrite_at(&mut col, &vec![2.0, 4.0], &vec![1, 3]);
    assert_eq!(col, vec![1.0, 2.0, 3.0, 4.0]);
}

#[test]
fn new_column_is_absent_but_at_positions() {
    let col = new_column(4, &vec![8.0, 9.0], &vec![3, 0], f64::NAN);
    assert!(same(&col, &[9.0, f64::NAN, f64::NAN, 8.0]));
}

#[test]
fn merge_column_picks_policy_by_length() {
    let mut full = vec![1.0, f64::NAN, 3.0];
    merge_column(&mut full, &vec![2.0], &vec![1], 3, f64::NAN);
    assert_eq!(full, vec![1.0, 2.0, 3.0]);
    let mut short = vec![1.0, 3.0];
    merge_column(&mut short, &vec![2.0], &vec![1], 3, f64::NAN);
    assert_eq!(short, vec![1.0, 2.0, 3.0]);
}

#[test]
fn merge_column_twice_is_unchanged() {
    let mut col = vec![1.0, 3.0];
    merge_column(&mut col, &vec![2.0], &vec![1], 3, f64::NAN);
    let first = col.clone();
    merge_column(&mut col, &vec![2.0], &vec![1], 3, f64::NAN);
    assert_eq!(col, first);
}

fn attrs() -> Vec<String> {
    vec![String::from("units"), String::from("long_name")]
}

#[test]
fn create_holds_one_variable() {
    let doc = VariableColumns::create(
        String::from("THETA"),
        attrs(),
        vec![String::from("degC"), String::from("Potential temperature")],
        &vec![1.0, 2.0, 3.0],
        &vec![0, 1, 2],
        f64::NAN,
    );
    assert_eq!(doc.names, vec![String::from("THETA")]);
    assert_eq!(doc.attribute_names, attrs());
    assert_eq!(doc.data, vec![vec![1.0, 2.0, 3.0]]);
    assert_eq!(doc.find_variable(&String::from("THETA")), Some(0));
    assert_eq!(doc.find_variable(&String::from("SALT")), None);
}

#[test]
fn upsert_appends_a_new_variable() {
    let mut doc = VariableColumns::create(
        String::from("THETA"),
        attrs(),
        vec![String::from("degC"), String::from("T")],
        &vec![1.0, 2.0, 3.0],
        &vec![0, 1, 2],
        f64::NAN,
    );
    doc.upsert(String::from("SALT"), vec![String::from("psu"), String::from("S")], &vec![35.0], &vec![1], 3, f64::NAN);
    assert_eq!(doc.names, vec![String::from("THETA"), String::from("SALT")]);
    assert_eq!(doc.attribute_values[1], vec![String::from("psu"), String::from("S")]);
    assert!(same(&doc.data[1], &[f64::NAN, 35.0, f64::NAN]));
    assert_eq!(doc.data[0], vec![1.0, 2.0, 3.0]);
}

#[test]
fn upsert_merges_a_known_variable() {
    let mut doc = VariableColumns::create(
        String::from("THETA"),
        attrs(),
        vec![String::from("degC"), String::from("T")],
        &vec![5.0, 7.0],
        &vec![0, 1],
        f64::NAN,
    );
    doc.upsert(String::from("THETA"), vec![String::from("degC"), String::from("T")], &vec![6.0], &vec![1], 3, f64::NAN);
    assert_eq!(doc.names.len(), 1);
    assert_eq!(doc.attribute_values.len(), 1);
    assert_eq!(doc.data, vec![vec![5.0, 6.0, 7.0]]);
}

#[test]
fn ingest_level_skips_trivial_new_profiles() {
    let axis = resolve_axis(None, &vec![10, 20]);
    let r = ingest_level(None, true, String::from("THETA"), attrs(), vec![], &vec![0.0, 0.0], &axis, f64::NAN);
    assert!(matches!(r, LevelWrite::Skip));
}

#[test]
fn ingest_level_creates_and_then_replaces() {
    let axis = resolve_axis(None, &vec![10, 20, 30]);
    let r = ingest_level(None, false, String::from("THETA"), attrs(), vec![], &vec![1.0, 2.0, 3.0], &axis, f64::NAN);
    let doc = match r {
        LevelWrite::Insert(doc) => doc,
        _ => panic!("expected a new document"),
    };
    assert_eq!(doc.data, vec![vec![1.0, 2.0, 3.0]]);
    let again = resolve_axis(Some(&axis.merged), &vec![10, 20, 30]);
    let r = ingest_level(Some(doc), false, String::from("THETA"), attrs(), vec![], &vec![1.0, 2.0, 3.0], &again, f64::NAN);
    match r {
        LevelWrite::Replace(doc) => {
            assert_eq!(doc.data, vec![vec![1.0, 2.0, 3.0]]);
            assert_eq!(doc.names.len(), 1);
        }
        _ => panic!("expected a replacement"),
    }
}

#[test]
fn merge_then_splice_into_stored_column() {
    let update = resolve_axis(Some(&vec![1000, 3000]), &vec![2000]);
    assert_eq!(update.merged, vec![1000, 2000, 3000]);
    assert_eq!(update.positions, vec![1]);
    let mut col = vec![5.0, 7.0];
    merge_column(&mut col, &vec![6.0], &update.positions, update.merged.len(), f64::NAN);
    assert_eq!(col, vec![5.0, 6.0, 7.0]);
}

#[test]
fn brand_new_location_column_has_no_padding() {
    let update = resolve_axis(None, &vec![1000, 2000, 3000]);
    assert_eq!(update.positions, vec![0, 1, 2]);
    let mut col: Vec<f64> = Vec::new();
    align(&mut col, &vec![1.0, 2.0, 3.0], &update.positions, f64::NAN);
    assert_eq!(col, vec![1.0, 2.0, 3.0]);
}
