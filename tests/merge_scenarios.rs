use csv_merge::merge::Merger;
use csv_merge::{DeduplicateStrategy, MergeError, MergeStrategy, Side};

fn row(fields: &[&str]) -> Vec<Vec<u8>> {
    fields.iter().map(|f| f.as_bytes().to_vec()).collect()
}

fn headers(names: &[&str]) -> Vec<Option<Vec<u8>>> {
    names.iter().map(|n| Some(n.as_bytes().to_vec())).collect()
}

fn rows(list: &[&[&str]]) -> Vec<Vec<Vec<u8>>> {
    list.iter().map(|r| row(r)).collect()
}

fn run(
    strategy: MergeStrategy,
    dedup: DeduplicateStrategy,
    numeric: bool,
    key: (&str, &str),
    left: (&[&str], &[&[&str]]),
    right: (&[&str], &[&[&str]]),
) -> Result<(Vec<Vec<u8>>, Vec<Vec<Vec<u8>>>), MergeError> {
    let merger = Merger::create(
        strategy,
        dedup,
        key.0.as_bytes().to_vec(),
        key.1.as_bytes().to_vec(),
        numeric,
    );
    merger
        .handle(&headers(left.0), &headers(right.0), &rows(left.1), &rows(right.1))
        .map(|o| (o.headers, o.rows))
}

#[test]
fn and_keep_all_numeric_key() {
    let (h, out) = run(
        MergeStrategy::And,
        DeduplicateStrategy::KeepAll,
        true,
        ("key", "key"),
        (&["key", "L"], &[&["1", "a"], &["2", "b"], &["4", "c"]]),
        (&["key", "R"], &[&["2", "x"], &["3", "y"], &["4", "z"]]),
    )
    .unwrap();
    assert_eq!(h, row(&["key", "L", "R"]));
    assert_eq!(
        out,
        rows(&[&["2", "b", ""], &["2", "", "x"], &["4", "c", ""], &["4", "", "z"]])
    );
}

#[test]
fn or_reduce_numeric_key() {
    let (h, out) = run(
        MergeStrategy::Or,
        DeduplicateStrategy::Reduce,
        true,
        ("key", "key"),
        (&["key", "A", "B"], &[&["1", "p", ""], &["2", "q", ""]]),
        (&["key", "B", "C"], &[&["2", "", "r"], &["3", "", "s"]]),
    )
    .unwrap();
    assert_eq!(h, row(&["key", "A", "B", "C"]));
    assert_eq!(
        out,
        rows(&[&["1", "p", "", ""], &["2", "q", "", "r"], &["3", "", "", "s"]])
    );
}

#[test]
fn and_cross_join_run_on_both_sides() {
    let (h, out) = run(
        MergeStrategy::And,
        DeduplicateStrategy::CrossJoin,
        true,
        ("key", "key"),
        (&["key", "L"], &[&["5", "a"], &["5", "b"]]),
        (&["key", "R"], &[&["5", "x"], &["5", "y"]]),
    )
    .unwrap();
    assert_eq!(h, row(&["key", "L", "R"]));
    assert_eq!(
        out,
        rows(&[&["5", "a", "x"], &["5", "a", "y"], &["5", "b", "x"], &["5", "b", "y"]])
    );
}

#[test]
fn and_keep_all_takes_right_rows_after_left_ends() {
    let (_, out) = run(
        MergeStrategy::And,
        DeduplicateStrategy::KeepAll,
        true,
        ("key", "key"),
        (&["key", "L"], &[&["5", "a"], &["5", "b"]]),
        (&["key", "R"], &[&["5", "x"], &["5", "y"], &["6", "z"]]),
    )
    .unwrap();
    assert_eq!(
        out,
        rows(&[&["5", "a", ""], &["5", "", "x"], &["5", "b", ""], &["5", "", "y"]])
    );
}

#[test]
fn and_cross_join_full_product_when_left_outlasts_run() {
    let (_, out) = run(
        MergeStrategy::And,
        DeduplicateStrategy::CrossJoin,
        true,
        ("key", "key"),
        (&["key", "L"], &[&["5", "a"], &["5", "b"], &["6", "c"]]),
        (&["key", "R"], &[&["5", "x"], &["5", "y"]]),
    )
    .unwrap();
    assert_eq!(
        out,
        rows(&[&["5", "a", "x"], &["5", "a", "y"], &["5", "b", "x"], &["5", "b", "y"]])
    );
}

#[test]
fn and_not_keep_all_numeric_key() {
    let (h, out) = run(
        MergeStrategy::AndNot,
        DeduplicateStrategy::KeepAll,
        true,
        ("k", "k"),
        (&["k", "v"], &[&["1", "a"], &["2", "b"], &["3", "c"]]),
        (&["k", "v"], &[&["2", "z"]]),
    )
    .unwrap();
    assert_eq!(h, row(&["k", "v"]));
    assert_eq!(out, rows(&[&["1", "a"], &["3", "c"]]));
}

#[test]
fn or_keep_first_suppresses_repeated_keys() {
    let (h, out) = run(
        MergeStrategy::Or,
        DeduplicateStrategy::KeepFirst,
        true,
        ("k", "k"),
        (&["k", "v"], &[&["1", "a"], &["1", "b"], &["2", "c"]]),
        (&["k", "v"], &[]),
    )
    .unwrap();
    assert_eq!(h, row(&["k", "v"]));
    assert_eq!(out, rows(&[&["2", "c"]]));
}

#[test]
fn missing_left_key_column() {
    let r = run(
        MergeStrategy::Or,
        DeduplicateStrategy::KeepAll,
        false,
        ("id", "k"),
        (&["k", "v"], &[&["1", "a"]]),
        (&["k", "w"], &[&["1", "b"]]),
    );
    assert_eq!(r.err(), Some(MergeError::MissingKeyColumn(Side::Left)));
}

#[test]
fn missing_right_key_column() {
    let r = run(
        MergeStrategy::Or,
        DeduplicateStrategy::KeepAll,
        false,
        ("k", "v"),
        (&["k", "v"], &[&["1", "a"]]),
        (&["k", "w"], &[&["1", "b"]]),
    );
    assert_eq!(r.err(), Some(MergeError::MissingKeyColumn(Side::Right)));
}

#[test]
fn numeric_key_that_does_not_parse() {
    let r = run(
        MergeStrategy::Or,
        DeduplicateStrategy::KeepAll,
        true,
        ("k", "k"),
        (&["k", "v"], &[&["1", "a"]]),
        (&["k", "w"], &[&["x1", "b"]]),
    );
    assert_eq!(r.err(), Some(MergeError::KeyNotNumber));
}

#[test]
fn byte_keys_compare_lexicographically() {
    // As bytes "10" sorts before "9".
    let (_, out) = run(
        MergeStrategy::And,
        DeduplicateStrategy::KeepAll,
        false,
        ("k", "k"),
        (&["k", "v"], &[&["10", "a"], &["9", "b"]]),
        (&["k", "w"], &[&["9", "c"]]),
    )
    .unwrap();
    assert_eq!(out, rows(&[&["9", "b", ""], &["9", "", "c"]]));
}

#[test]
fn different_key_columns_per_side() {
    let (h, out) = run(
        MergeStrategy::And,
        DeduplicateStrategy::KeepAll,
        true,
        ("a", "b"),
        (&["a", "x"], &[&["1", "p"], &["2", "q"]]),
        (&["b", "y"], &[&["2", "r"]]),
    )
    .unwrap();
    assert_eq!(h, row(&["a", "x", "b", "y"]));
    assert_eq!(out, rows(&[&["2", "q", "", ""], &["", "", "2", "r"]]));
}

#[test]
fn dropped_columns_leave_the_output() {
    let merger = Merger::create(
        MergeStrategy::Or,
        DeduplicateStrategy::KeepAll,
        b"k".to_vec(),
        b"k".to_vec(),
        false,
    );
    let lh = vec![Some(b"k".to_vec()), None, Some(b"v".to_vec())];
    let rh = headers(&["k", "v"]);
    let o = merger
        .handle(&lh, &rh, &rows(&[&["1", "gone", "a"]]), &rows(&[&["2", "b"]]))
        .unwrap();
    assert_eq!(o.headers, row(&["k", "v"]));
    assert_eq!(o.rows, rows(&[&["1", "a"], &["2", "b"]]));
}

#[test]
fn numeric_keys_of_equal_value_share_a_run() {
    let (_, out) = run(
        MergeStrategy::Or,
        DeduplicateStrategy::Reduce,
        true,
        ("key", "key"),
        (&["key", "A"], &[&["7", "p"], &["8", "q"]]),
        (&["key", "B"], &[&["07", "r"]]),
    )
    .unwrap();
    assert_eq!(out, rows(&[&["07", "p", "r"], &["8", "q", ""]]));
}

#[test]
fn byte_keys_of_equal_value_stay_apart() {
    let (_, out) = run(
        MergeStrategy::Or,
        DeduplicateStrategy::Reduce,
        false,
        ("key", "key"),
        (&["key", "A"], &[&["07", "p"]]),
        (&["key", "B"], &[&["7", "r"]]),
    )
    .unwrap();
    assert_eq!(out, rows(&[&["07", "p", ""], &["7", "", "r"]]));
}
