use csv_merge::deduplicate::{
    CrossJoinStrategyHandler, KeepFirstStrategyHandler, ReduceStrategyHandler, RemoveSimilarStrategyHandler,
    StrategyHandler,
};
use csv_merge::key::{compare_keys, to_number};
use csv_merge::merge::Merger;
use csv_merge::record::compare_rows;
use csv_merge::{DeduplicateStrategy, MergeError, MergeStrategy, Side};
use std::cmp::Ordering;

type Row = Vec<Vec<u8>>;

fn row(fields: &[&str]) -> Row {
    fields.iter().map(|f| f.as_bytes().to_vec()).collect()
}

fn rows(list: &[&[&str]]) -> Vec<Row> {
    list.iter().map(|r| row(r)).collect()
}

fn headers(names: &[&str]) -> Vec<Option<Vec<u8>>> {
    names.iter().map(|n| Some(n.as_bytes().to_vec())).collect()
}

fn merge(
    strategy: MergeStrategy,
    dedup: DeduplicateStrategy,
    numeric: bool,
    left: (&[&str], &[&[&str]]),
    right: (&[&str], &[&[&str]]),
) -> (Row, Vec<Row>) {
    let m = Merger::create(strategy, dedup, b"k".to_vec(), b"k".to_vec(), numeric);
    let o = m
        .handle(&headers(left.0), &headers(right.0), &rows(left.1), &rows(right.1))
        .unwrap();
    (o.headers, o.rows)
}

const ALL_DEDUP: [DeduplicateStrategy; 6] = [
    DeduplicateStrategy::KeepAll,
    DeduplicateStrategy::KeepFirst,
    DeduplicateStrategy::RemoveSimilar,
    DeduplicateStrategy::Reduce,
    DeduplicateStrategy::CrossJoin,
    DeduplicateStrategy::CrossJoinAndRemoveSimilar,
];

const LEFT: (&[&str], &[&[&str]]) = (
    &["k", "a"],
    &[&["1", "p"], &["2", "q"], &["2", "r"], &["4", "s"], &["5", "t"]],
);
const RIGHT: (&[&str], &[&[&str]]) = (&["k", "b"], &[&["2", "x"], &["3", "y"], &["3", "z"], &["5", "w"]]);

#[test]
fn every_output_row_has_the_output_width() {
    for s in [MergeStrategy::Or, MergeStrategy::And, MergeStrategy::AndNot] {
        for d in ALL_DEDUP {
            let (h, out) = merge(s, d, true, LEFT, RIGHT);
            assert_eq!(h, row(&["k", "a", "b"]));
            assert!(out.iter().all(|r| r.len() == h.len()));
        }
    }
}

#[test]
fn keep_all_union_emits_every_input_row_once() {
    let (_, out) = merge(MergeStrategy::Or, DeduplicateStrategy::KeepAll, true, LEFT, RIGHT);
    assert_eq!(
        out,
        rows(&[
            &["1", "p", ""],
            &["2", "q", ""],
            &["2", "", "x"],
            &["2", "r", ""],
            &["3", "", "y"],
            &["3", "", "z"],
            &["4", "s", ""],
            &["5", "t", ""],
            &["5", "", "w"],
        ])
    );
}

#[test]
fn reduce_single_row_and_repeated_rows() {
    let mut h = ReduceStrategyHandler::build(false);
    let mut out = Vec::new();
    h.add_row(row(&["1", "a", ""]), b"1".to_vec(), Side::Left, &mut out);
    h.flush(&mut out);
    assert_eq!(out, rows(&[&["1", "a", ""]]));

    let mut h = ReduceStrategyHandler::build(false);
    let mut out = Vec::new();
    h.add_row(row(&["1", "a", "b"]), b"1".to_vec(), Side::Left, &mut out);
    h.add_row(row(&["1", "a", "b"]), b"1".to_vec(), Side::Right, &mut out);
    h.flush(&mut out);
    assert_eq!(out, rows(&[&["1", "a", "b"]]));
}

#[test]
fn reduce_overwrites_with_later_non_empty_fields() {
    let mut h = ReduceStrategyHandler::build(false);
    let mut out = Vec::new();
    h.add_row(row(&["1", "a", "", "c"]), b"1".to_vec(), Side::Left, &mut out);
    h.add_row(row(&["1", "", "b", "d"]), b"1".to_vec(), Side::Right, &mut out);
    h.add_row(row(&["2", "e", "", ""]), b"2".to_vec(), Side::Left, &mut out);
    assert_eq!(out, rows(&[&["1", "a", "b", "d"]]));
    h.flush(&mut out);
    assert_eq!(out, rows(&[&["1", "a", "b", "d"], &["2", "e", "", ""]]));
}

#[test]
fn remove_similar_sorts_and_drops_repeats_per_run() {
    let input: Vec<(&[&str], Side)> = vec![
        (&["0", "1", "3", ""], Side::Left),
        (&["1", "2", "", ""], Side::Left),
        (&["1", "2", "", ""], Side::Left),
        (&["1", "2", "", ""], Side::Left),
        (&["1", "", "4", "7"], Side::Right),
        (&["2", "3", "5", ""], Side::Left),
        (&["3", "1", "", ""], Side::Left),
        (&["3", "1", "", ""], Side::Left),
        (&["3", "", "6", "7"], Side::Right),
        (&["3", "", "5", "5"], Side::Right),
        (&["3", "", "4", "4"], Side::Right),
        (&["4", "", "5", ""], Side::Left),
        (&["6", "", "5", "4"], Side::Right),
        (&["6", "2", "5", "4"], Side::Left),
    ];
    let mut h = RemoveSimilarStrategyHandler::build(false);
    let mut out = Vec::new();
    for (r, side) in input {
        let key = r[0].as_bytes().to_vec();
        h.add_row(row(r), key, side, &mut out);
    }
    h.flush(&mut out);
    assert_eq!(
        out,
        rows(&[
            &["0", "1", "3", ""],
            &["1", "", "4", "7"],
            &["1", "2", "", ""],
            &["2", "3", "5", ""],
            &["3", "", "4", "4"],
            &["3", "", "5", "5"],
            &["3", "", "6", "7"],
            &["3", "1", "", ""],
            &["4", "", "5", ""],
            &["6", "", "5", "4"],
            &["6", "2", "5", "4"],
        ])
    );
    for w in out.windows(2) {
        if w[0][0] == w[1][0] {
            assert_eq!(compare_rows(&w[0], &w[1]), Ordering::Less);
        }
    }
}

#[test]
fn cross_join_counts() {
    let mut h = CrossJoinStrategyHandler::build(false, false);
    let mut out = Vec::new();
    for l in ["a", "b"] {
        h.add_row(row(&["7", l, ""]), b"7".to_vec(), Side::Left, &mut out);
    }
    for r in ["x", "y", "z"] {
        h.add_row(row(&["7", "", r]), b"7".to_vec(), Side::Right, &mut out);
    }
    h.flush(&mut out);
    assert_eq!(out.len(), 6);
    assert_eq!(out[0], row(&["7", "a", "x"]));
    assert_eq!(out[5], row(&["7", "b", "z"]));

    let mut h = CrossJoinStrategyHandler::build(false, false);
    let mut out = Vec::new();
    h.add_row(row(&["8", "a", ""]), b"8".to_vec(), Side::Left, &mut out);
    h.add_row(row(&["8", "b", ""]), b"8".to_vec(), Side::Left, &mut out);
    h.add_row(row(&["9", "", "x"]), b"9".to_vec(), Side::Right, &mut out);
    assert_eq!(out, rows(&[&["8", "a", ""], &["8", "b", ""]]));
    h.flush(&mut out);
    assert_eq!(out.len(), 3);
}

#[test]
fn cross_join_with_remove_similar_drops_repeats() {
    let mut h = CrossJoinStrategyHandler::build(true, false);
    let mut out = Vec::new();
    h.add_row(row(&["7", "b", ""]), b"7".to_vec(), Side::Left, &mut out);
    h.add_row(row(&["7", "a", ""]), b"7".to_vec(), Side::Left, &mut out);
    h.add_row(row(&["7", "b", ""]), b"7".to_vec(), Side::Left, &mut out);
    h.add_row(row(&["7", "", "x"]), b"7".to_vec(), Side::Right, &mut out);
    h.add_row(row(&["7", "", "x"]), b"7".to_vec(), Side::Right, &mut out);
    h.flush(&mut out);
    assert_eq!(out, rows(&[&["7", "a", "x"], &["7", "b", "x"]]));
}

#[test]
fn cross_join_with_remove_similar_keeps_entries_split_by_the_other_side() {
    // Equal rows sort by arrival; only neighbours with the same side merge.
    let mut h = CrossJoinStrategyHandler::build(true, false);
    let mut out = Vec::new();
    h.add_row(row(&["7", "a"]), b"7".to_vec(), Side::Left, &mut out);
    h.add_row(row(&["7", "a"]), b"7".to_vec(), Side::Right, &mut out);
    h.add_row(row(&["7", "a"]), b"7".to_vec(), Side::Left, &mut out);
    h.flush(&mut out);
    assert_eq!(out, rows(&[&["7", "a"], &["7", "a"]]));
}

#[test]
fn keep_first_handler_keeps_singletons_only() {
    let mut h = KeepFirstStrategyHandler::build(false);
    let mut out = Vec::new();
    for (k, v) in [("1", "a"), ("1", "b"), ("2", "c"), ("3", "d"), ("3", "e"), ("3", "f"), ("4", "g")] {
        h.add_row(row(&[k, v]), k.as_bytes().to_vec(), Side::Left, &mut out);
    }
    h.flush(&mut out);
    assert_eq!(out, rows(&[&["2", "c"], &["4", "g"]]));
}

#[test]
fn intersection_rows_are_union_rows() {
    for d in [DeduplicateStrategy::KeepAll, DeduplicateStrategy::RemoveSimilar] {
        let (_, and) = merge(MergeStrategy::And, d, true, LEFT, RIGHT);
        let (_, or) = merge(MergeStrategy::Or, d, true, LEFT, RIGHT);
        assert!(!and.is_empty());
        assert!(and.iter().all(|r| or.contains(r)));
    }
}

#[test]
fn left_difference_keeps_no_right_key() {
    for d in ALL_DEDUP {
        let (_, out) = merge(MergeStrategy::AndNot, d, true, LEFT, RIGHT);
        for r in &out {
            assert!(r[0] != b"2".to_vec() && r[0] != b"3".to_vec() && r[0] != b"5".to_vec());
        }
        assert!(!out.is_empty());
    }
}

#[test]
fn union_is_symmetric_in_its_inputs() {
    let l: (&[&str], &[&[&str]]) = (&["k", "v"], &[&["1", "a"], &["2", "b"], &["2", "c"]]);
    let r: (&[&str], &[&[&str]]) = (&["k", "v"], &[&["2", "b"], &["3", "d"], &["3", "e"]]);
    let (_, mut lr) = merge(MergeStrategy::Or, DeduplicateStrategy::KeepAll, true, l, r);
    let (_, mut rl) = merge(MergeStrategy::Or, DeduplicateStrategy::KeepAll, true, r, l);
    lr.sort();
    lr.dedup();
    rl.sort();
    rl.dedup();
    assert_eq!(lr, rl);
    assert_eq!(lr, rows(&[&["1", "a"], &["2", "b"], &["2", "c"], &["3", "d"], &["3", "e"]]));
}

#[test]
fn numbers_parse_with_sign_and_range() {
    assert_eq!(to_number(&b"42".to_vec()), Ok(42));
    assert_eq!(to_number(&b"-42".to_vec()), Ok(-42));
    assert_eq!(to_number(&b"+7".to_vec()), Ok(7));
    assert_eq!(to_number(&b"9223372036854775807".to_vec()), Ok(i64::MAX));
    assert_eq!(to_number(&b"-9223372036854775808".to_vec()), Ok(i64::MIN));
    assert_eq!(to_number(&b"9223372036854775808".to_vec()), Err(MergeError::KeyNotNumber));
    assert_eq!(to_number(&b"".to_vec()), Err(MergeError::KeyNotNumber));
    assert_eq!(to_number(&b"-".to_vec()), Err(MergeError::KeyNotNumber));
    assert_eq!(to_number(&b"1 ".to_vec()), Err(MergeError::KeyNotNumber));
    assert_eq!(to_number(&b"007".to_vec()), Ok(7));
}

#[test]
fn keys_compare_as_bytes_or_numbers() {
    assert_eq!(compare_keys(&b"10".to_vec(), &b"9".to_vec(), false), Ok(Ordering::Less));
    assert_eq!(compare_keys(&b"10".to_vec(), &b"9".to_vec(), true), Ok(Ordering::Greater));
    assert_eq!(compare_keys(&b"ab".to_vec(), &b"ab".to_vec(), false), Ok(Ordering::Equal));
    assert_eq!(compare_keys(&b"a".to_vec(), &b"ab".to_vec(), false), Ok(Ordering::Less));
    assert_eq!(compare_keys(&b"-3".to_vec(), &b"2".to_vec(), true), Ok(Ordering::Less));
    assert_eq!(compare_keys(&b"x".to_vec(), &b"2".to_vec(), true), Err(MergeError::KeyNotNumber));
}

fn reduce_all(input: &[(&[&str], &str)]) -> Vec<Row> {
    let mut h = ReduceStrategyHandler::build(false);
    let mut out = Vec::new();
    for (r, k) in input {
        h.add_row(row(r), k.as_bytes().to_vec(), Side::Left, &mut out);
    }
    h.flush(&mut out);
    out
}

#[test]
fn reduce_of_a_run_given_twice_equals_once() {
    let g: Vec<(&[&str], &str)> = vec![(&["1", "a", "", "x"], "1"), (&["1", "", "b", ""], "1"), (&["1", "c", "", ""], "1")];
    let once = reduce_all(&g);
    let mut twice_in = g.clone();
    twice_in.extend(g.iter().cloned());
    assert_eq!(reduce_all(&twice_in), once);
    assert_eq!(once, rows(&[&["1", "c", "b", "x"]]));
}

#[test]
fn reduce_of_reduce_output_is_unchanged() {
    let first = reduce_all(&[(&["1", "a", ""], "1"), (&["1", "", "b"], "1"), (&["2", "c", ""], "2")]);
    let again: Vec<(Vec<String>, String)> = first
        .iter()
        .map(|r| (r.iter().map(|f| String::from_utf8(f.clone()).unwrap()).collect(), String::from_utf8(r[0].clone()).unwrap()))
        .collect();
    let mut h = ReduceStrategyHandler::build(false);
    let mut out = Vec::new();
    for (r, k) in &again {
        let fields: Vec<&str> = r.iter().map(|s| s.as_str()).collect();
        h.add_row(row(&fields), k.as_bytes().to_vec(), Side::Left, &mut out);
    }
    h.flush(&mut out);
    assert_eq!(out, first);
}
