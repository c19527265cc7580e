use csv_merge::transform::{
    create_transform_error, output_record, parse_filters, test_record, Comparison, FieldType, Filter, JsFilter,
    TransformError,
};

fn row(fields: &[&str]) -> Vec<Vec<u8>> {
    fields.iter().map(|f| f.as_bytes().to_vec()).collect()
}

#[test]
fn create_filter() {
    let filter = Filter::create(String::from("id"), String::from("42"), None, None);
    assert_eq!(filter.field, "id");
    assert_eq!(filter.value, "42");
    assert_eq!(filter.field_type, FieldType::String);
    assert_eq!(filter.comparison, Comparison::Eq);
}

#[test]
fn js_filter_wraps_a_filter() {
    let f = JsFilter::constructor(
        String::from("key"),
        String::from("7"),
        Some(FieldType::Number),
        Some(Comparison::Ge),
    );
    assert_eq!(f.inner.field, "key");
    assert_eq!(f.inner.field_type, FieldType::Number);
    assert_eq!(f.inner.comparison, Comparison::Ge);
    assert_eq!(f.inner.index, None);
}

#[test]
fn filters_select_rows() {
    let headers = row(&["key", "feature_left", "feature2_left"]);
    let mut filters = vec![
        Filter::create(String::from("key"), String::from("42"), Some(FieldType::Number), Some(Comparison::Ge)),
        Filter::create(String::from("feature2_left"), String::from("50"), Some(FieldType::Number), Some(Comparison::Ge)),
        Filter::create(String::from("feature_left"), String::from("7000"), Some(FieldType::String), Some(Comparison::Eq)),
    ];
    assert_eq!(parse_filters(&mut filters, &headers), Ok(()));
    assert_eq!(filters[1].index, Some(2));
    assert_eq!(test_record(&filters, &row(&["300", "7000", "100"])), Ok(true));
    assert_eq!(test_record(&filters, &row(&["41", "7000", "100"])), Ok(false));
    assert_eq!(test_record(&filters, &row(&["300", "7001", "100"])), Ok(false));
    assert_eq!(test_record(&filters, &row(&["300", "7000", "49"])), Ok(false));
}

#[test]
fn filter_on_unknown_column() {
    let headers = row(&["key"]);
    let mut filters = vec![Filter::create(String::from("nope"), String::from("1"), None, None)];
    assert_eq!(parse_filters(&mut filters, &headers), Err(TransformError::FieldNotFound));
}

#[test]
fn number_filter_on_text_value() {
    let headers = row(&["key"]);
    let mut filters = vec![Filter::create(String::from("key"), String::from("1"), Some(FieldType::Number), Some(Comparison::Lt))];
    parse_filters(&mut filters, &headers).unwrap();
    assert_eq!(test_record(&filters, &row(&["abc"])), Err(TransformError::NotNumber));
    assert_eq!(test_record(&filters, &row(&["-5"])), Ok(true));
}

#[test]
fn filter_on_short_row() {
    let headers = row(&["a", "b"]);
    let mut filters = vec![Filter::create(String::from("b"), String::from("x"), None, Some(Comparison::Le))];
    parse_filters(&mut filters, &headers).unwrap();
    assert_eq!(test_record(&filters, &row(&["only"])), Err(TransformError::MissingField));
    assert_eq!(test_record(&filters, &row(&["1", "w"])), Ok(true));
    assert_eq!(test_record(&filters, &row(&["1", "y"])), Ok(false));
}

#[test]
fn transform_error_value() {
    assert_eq!(create_transform_error(TransformError::FieldNotFound), Err(TransformError::FieldNotFound));
}

#[test]
fn output_record_keeps_columns_and_appends_line() {
    let r = output_record(&row(&["a", "b", "c"]), &vec![true, false, true], Some(b"3".to_vec()));
    assert_eq!(r, row(&["a", "c", "3"]));
    let r = output_record(&row(&["a", "b"]), &vec![true], None);
    assert_eq!(r, row(&["a"]));
}
