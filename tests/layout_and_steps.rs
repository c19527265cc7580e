use csv_merge::header::{map_file_headers_to_output, output_headers, project_row, MergeLayout};
use csv_merge::merge::{MergeJoin, StepDecision};
use csv_merge::{MergeError, MergeStrategy, Side};
use std::cmp::Ordering;

fn names(list: &[&str]) -> Vec<Vec<u8>> {
    list.iter().map(|n| n.as_bytes().to_vec()).collect()
}

fn headers(list: &[&str]) -> Vec<Option<Vec<u8>>> {
    list.iter().map(|n| Some(n.as_bytes().to_vec())).collect()
}

#[test]
fn union_keeps_first_occurrence_order() {
    let h = output_headers(&headers(&["key", "A", "B"]), &headers(&["key", "B", "C", "A"]));
    assert_eq!(h, names(&["key", "A", "B", "C"]));
}

#[test]
fn projection_maps_columns_and_fills_absent_with_empty() {
    let out = names(&["key", "A", "B", "C"]);
    let m = map_file_headers_to_output(&out, &headers(&["key", "B", "C"]));
    assert_eq!(m, vec![Some(0), None, Some(1), Some(2)]);
    let r = project_row(&names(&["2", "", "r"]), &m);
    assert_eq!(r, names(&["2", "", "", "r"]));
}

#[test]
fn layout_resolves_keys_in_output_columns() {
    let l = MergeLayout::build(
        &headers(&["id", "x"]),
        &headers(&["y", "ref"]),
        &b"id".to_vec(),
        &b"ref".to_vec(),
    )
    .unwrap();
    assert_eq!(l.output_headers, names(&["id", "x", "y", "ref"]));
    assert_eq!(l.left_key_index, 0);
    assert_eq!(l.right_key_index, 3);
    assert_eq!(l.left_map, vec![Some(0), Some(1), None, None]);
    assert_eq!(l.right_map, vec![None, None, Some(0), Some(1)]);
}

#[test]
fn layout_rejects_dropped_key_column() {
    let left = vec![None, Some(b"x".to_vec())];
    let r = MergeLayout::build(&left, &headers(&["k"]), &b"k".to_vec(), &b"k".to_vec());
    assert_eq!(r.err(), Some(MergeError::MissingKeyColumn(Side::Left)));
}

#[test]
fn step_machine_keeps_left_history() {
    let mut j = MergeJoin::new(MergeStrategy::And);
    let d = j.step(Ordering::Equal, &b"5".to_vec(), &b"5".to_vec());
    assert_eq!(d, StepDecision { emit_left: true, emit_right: true, advance_left: true });
    // The next left key is larger while the right head still matches the key
    // just passed: the right side has to move on.
    let d = j.step(Ordering::Greater, &b"6".to_vec(), &b"5".to_vec());
    assert_eq!(d, StepDecision { emit_left: false, emit_right: false, advance_left: false });
    let d = j.step(Ordering::Greater, &b"6".to_vec(), &b"5".to_vec());
    assert_eq!(d, StepDecision { emit_left: false, emit_right: true, advance_left: false });
}

#[test]
fn tails_follow_the_strategy() {
    let mut or = MergeJoin::new(MergeStrategy::Or);
    assert!(or.tail_left());
    assert!(or.tail_right(&b"1".to_vec()));
    let mut and = MergeJoin::new(MergeStrategy::And);
    assert!(!and.tail_left());
    assert!(!and.tail_right(&b"1".to_vec()));
    let mut not = MergeJoin::new(MergeStrategy::AndNot);
    assert!(not.tail_left());
    assert!(!not.tail_right(&b"1".to_vec()));
}

#[test]
fn intersection_tail_keeps_rows_of_the_last_left_key() {
    let mut j = MergeJoin::new(MergeStrategy::And);
    let d = j.step(Ordering::Equal, &b"5".to_vec(), &b"5".to_vec());
    assert!(d.emit_left && d.emit_right && d.advance_left);
    // The left input has ended; the right head was emitted already.
    assert!(!j.tail_right(&b"5".to_vec()));
    assert!(j.tail_right(&b"5".to_vec()));
    assert!(!j.tail_right(&b"6".to_vec()));
}
