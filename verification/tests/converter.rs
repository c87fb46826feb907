use delorean::ordering::{str_compare, KeyOrder};
use delorean::seriesset::{
    Column, ColumnValues, Error, RowBatch, SeriesSet, SeriesSetConverter,
};
use delorean::server::{
    exceeds_max_body, org_and_bucket_to_database, route_request, validate_content_encoding,
    ApplicationError, MemWriter, Route, MAX_SIZE,
};

fn utf8_col(name: &str, values: Vec<&str>) -> Column {
    Column {
        name: name.to_string(),
        values: ColumnValues::Utf8(values.into_iter().map(|s| s.to_string()).collect()),
    }
}

fn f64_col(name: &str, values: Vec<f64>) -> Column {
    Column {
        name: name.to_string(),
        values: ColumnValues::F64(values.into_iter().map(|v| v.to_bits()).collect()),
    }
}

fn i64_col(name: &str, values: Vec<i64>) -> Column {
    Column {
        name: name.to_string(),
        values: ColumnValues::I64(values),
    }
}

/// The five-column schema the conversion scenarios share, with one row
/// per entry of the input tuples.
fn sample_batch(rows: Vec<(&str, &str, f64, i64, i64)>) -> RowBatch {
    let num_rows = rows.len();
    let tag_a = rows.iter().map(|r| r.0).collect::<Vec<_>>();
    let tag_b = rows.iter().map(|r| r.1).collect::<Vec<_>>();
    let float_field = rows.iter().map(|r| r.2).collect::<Vec<_>>();
    let int_field = rows.iter().map(|r| r.3).collect::<Vec<_>>();
    let time = rows.iter().map(|r| r.4).collect::<Vec<_>>();
    RowBatch {
        num_rows,
        columns: vec![
            utf8_col("tag_a", tag_a),
            utf8_col("tag_b", tag_b),
            f64_col("float_field", float_field),
            i64_col("int_field", int_field),
            i64_col("time", time),
        ],
    }
}

fn strings(names: &[&str]) -> Vec<String> {
    names.iter().map(|s| s.to_string()).collect()
}

fn convert(
    table_name: &str,
    tag_columns: &[&str],
    field_columns: &[&str],
    batches: Vec<RowBatch>,
) -> Result<Vec<SeriesSet>, Error> {
    let converter = SeriesSetConverter::new();
    converter.convert(
        table_name,
        &strings(tag_columns),
        &strings(field_columns),
        &batches,
    )
}

fn tag_pairs(set: &SeriesSet) -> Vec<(String, String)> {
    set.tags.clone()
}

#[test]
fn convert_empty_input() {
    let results = convert("foo", &[], &[], vec![]).unwrap();
    assert_eq!(results.len(), 0);
}

#[test]
fn convert_single_series_no_tags() {
    let batch = sample_batch(vec![
        ("one", "ten", 10.0, 1, 1000),
        ("one", "ten", 10.1, 2, 2000),
    ]);
    let results = convert("foo", &[], &["float_field"], vec![batch]).unwrap();

    assert_eq!(results.len(), 1);
    let series_set = &results[0];

    assert_eq!(series_set.table_name, "foo");
    assert!(series_set.tags.is_empty());
    assert_eq!(series_set.timestamp_index, 4);
    assert_eq!(series_set.field_indices, vec![2]);
    assert_eq!(series_set.start_row, 0);
    assert_eq!(series_set.num_rows, 2);
    assert_eq!(series_set.batch.num_rows, 2);
    assert_eq!(series_set.batch.columns.len(), 5);

    let names: Vec<&str> = series_set.batch.columns.iter().map(|c| c.name.as_str()).collect();
    assert_eq!(names, vec!["tag_a", "tag_b", "float_field", "int_field", "time"]);
    assert_eq!(
        series_set.batch.columns[0].values,
        ColumnValues::Utf8(vec!["one".to_string(), "one".to_string()])
    );
    assert_eq!(
        series_set.batch.columns[1].values,
        ColumnValues::Utf8(vec!["ten".to_string(), "ten".to_string()])
    );
    assert_eq!(
        series_set.batch.columns[2].values,
        ColumnValues::F64(vec![10.0f64.to_bits(), 10.1f64.to_bits()])
    );
    assert_eq!(
        series_set.batch.columns[3].values,
        ColumnValues::I64(vec![1, 2])
    );
    assert_eq!(
        series_set.batch.columns[4].values,
        ColumnValues::I64(vec![1000, 2000])
    );
}

#[test]
fn convert_single_series_one_tag() {
    let batch = sample_batch(vec![
        ("one", "ten", 10.0, 1, 1000),
        ("one", "ten", 10.1, 2, 2000),
    ]);
    let results = convert("bar", &["tag_a"], &["float_field"], vec![batch]).unwrap();

    assert_eq!(results.len(), 1);
    let series_set = &results[0];

    assert_eq!(series_set.table_name, "bar");
    assert_eq!(
        tag_pairs(series_set),
        vec![("tag_a".to_string(), "one".to_string())]
    );
    assert_eq!(series_set.timestamp_index, 4);
    assert_eq!(series_set.field_indices, vec![2]);
    assert_eq!(series_set.start_row, 0);
    assert_eq!(series_set.num_rows, 2);
}

#[test]
fn convert_one_tag_multi_series() {
    let batch = sample_batch(vec![
        ("one", "ten", 10.0, 1, 1000),
        ("one", "ten", 10.1, 2, 2000),
        ("one", "eleven", 10.1, 3, 3000),
        ("two", "eleven", 10.2, 4, 4000),
        ("two", "eleven", 10.3, 5, 5000),
    ]);
    let results = convert("foo", &["tag_a"], &["int_field"], vec![batch]).unwrap();

    assert_eq!(results.len(), 2);

    let series_set1 = &results[0];
    assert_eq!(series_set1.table_name, "foo");
    assert_eq!(
        tag_pairs(series_set1),
        vec![("tag_a".to_string(), "one".to_string())]
    );
    assert_eq!(series_set1.timestamp_index, 4);
    assert_eq!(series_set1.field_indices, vec![3]);
    assert_eq!(series_set1.start_row, 0);
    assert_eq!(series_set1.num_rows, 3);

    let series_set2 = &results[1];
    assert_eq!(series_set2.table_name, "foo");
    assert_eq!(
        tag_pairs(series_set2),
        vec![("tag_a".to_string(), "two".to_string())]
    );
    assert_eq!(series_set2.timestamp_index, 4);
    assert_eq!(series_set2.field_indices, vec![3]);
    assert_eq!(series_set2.start_row, 3);
    assert_eq!(series_set2.num_rows, 2);
}

#[test]
fn convert_two_tag_multi_series() {
    let batch = sample_batch(vec![
        ("one", "ten", 10.0, 1, 1000),
        ("one", "ten", 10.1, 2, 2000),
        ("one", "eleven", 10.1, 3, 3000),
        ("two", "eleven", 10.2, 4, 4000),
        ("two", "eleven", 10.3, 5, 5000),
    ]);
    let results = convert("foo", &["tag_a", "tag_b"], &["int_field"], vec![batch]).unwrap();

    assert_eq!(results.len(), 3);

    let series_set1 = &results[0];
    assert_eq!(series_set1.table_name, "foo");
    assert_eq!(
        tag_pairs(series_set1),
        vec![
            ("tag_a".to_string(), "one".to_string()),
            ("tag_b".to_string(), "ten".to_string())
        ]
    );
    assert_eq!(series_set1.start_row, 0);
    assert_eq!(series_set1.num_rows, 2);

    let series_set2 = &results[1];
    assert_eq!(
        tag_pairs(series_set2),
        vec![
            ("tag_a".to_string(), "one".to_string()),
            ("tag_b".to_string(), "eleven".to_string())
        ]
    );
    assert_eq!(series_set2.start_row, 2);
    assert_eq!(series_set2.num_rows, 1);

    let series_set3 = &results[2];
    assert_eq!(
        tag_pairs(series_set3),
        vec![
            ("tag_a".to_string(), "two".to_string()),
            ("tag_b".to_string(), "eleven".to_string())
        ]
    );
    assert_eq!(series_set3.start_row, 3);
    assert_eq!(series_set3.num_rows, 2);
}

#[test]
fn convert_refuses_several_batches() {
    let b1 = sample_batch(vec![("one", "ten", 1.0, 1, 1)]);
    let b2 = sample_batch(vec![("two", "ten", 1.0, 1, 1)]);
    let err = convert("foo", &[], &[], vec![b1, b2]).unwrap_err();
    assert!(matches!(err, Error::MultiBatchNotSupported));
}

#[test]
fn convert_reports_missing_column() {
    let batch = sample_batch(vec![("one", "ten", 1.0, 1, 1)]);
    let err = convert("foo", &["tag_c"], &[], vec![batch]).unwrap_err();
    match err {
        Error::ColumnNotFoundForSeriesSet { column_name } => {
            assert_eq!(column_name, "tag_c");
        }
        other => panic!("unexpected error: {:?}", other),
    }
}

#[test]
fn convert_reports_missing_time_column() {
    let batch = RowBatch {
        num_rows: 1,
        columns: vec![utf8_col("tag_a", vec!["one"])],
    };
    let err = convert("foo", &["tag_a"], &[], vec![batch]).unwrap_err();
    match err {
        Error::ColumnNotFoundForSeriesSet { column_name } => {
            assert_eq!(column_name, "time");
        }
        other => panic!("unexpected error: {:?}", other),
    }
}

#[test]
fn convert_refuses_numeric_tag_column() {
    let batch = sample_batch(vec![("one", "ten", 1.0, 1, 1)]);
    let err = convert("foo", &["int_field"], &[], vec![batch]).unwrap_err();
    match err {
        Error::UnsupportedTagType { column_name } => {
            assert_eq!(column_name, "int_field");
        }
        other => panic!("unexpected error: {:?}", other),
    }
}

#[test]
fn string_order_is_lexicographic() {
    assert_eq!(str_compare("abc", "abd"), KeyOrder::Less);
    assert_eq!(str_compare("abc", "abc"), KeyOrder::Equal);
    assert_eq!(str_compare("b", "aaaa"), KeyOrder::Greater);
    assert_eq!(str_compare("abc", "abcd"), KeyOrder::Less);
}

#[test]
fn routes_match_methods_and_paths() {
    assert_eq!(route_request("POST", "/api/v2/write"), Route::Write);
    assert_eq!(route_request("POST", "/api/v2/buckets"), Route::CreateBucket);
    assert_eq!(route_request("GET", "/ping"), Route::Ping);
    assert_eq!(route_request("GET", "/api/v2/read"), Route::Read);
    assert_eq!(route_request("GET", "/api/v2/write"), Route::NotFound);
    assert_eq!(route_request("POST", "/ping"), Route::NotFound);
    assert_eq!(route_request("GET", "/api/v1/partitions"), Route::NotFound);
    assert_eq!(route_request("GET", "/api/v1/snapshot"), Route::NotFound);
}

#[test]
fn status_codes_follow_the_taxonomy() {
    let not_found = ApplicationError::RouteNotFound {
        method: "GET".to_string(),
        path: "/nope".to_string(),
    };
    assert_eq!(not_found.status_code(), 404);
    let too_big = ApplicationError::RequestSizeExceeded { max_body_size: MAX_SIZE };
    assert_eq!(too_big.status_code(), 400);
    let internal = ApplicationError::DatabaseError {
        database: "db".to_string(),
        description: "broken".to_string(),
    };
    assert_eq!(internal.status_code(), 500);
}

#[test]
fn body_limit_is_ten_megabytes() {
    assert!(!exceeds_max_body(MAX_SIZE - 1, 1));
    assert!(exceeds_max_body(MAX_SIZE, 1));
    assert!(exceeds_max_body(0, MAX_SIZE + 1));
}

#[test]
fn content_encoding_must_be_gzip() {
    assert!(validate_content_encoding("gzip").unwrap());
    let err = validate_content_encoding("deflate").unwrap_err();
    match err {
        ApplicationError::InvalidContentEncoding { content_encoding } => {
            assert_eq!(content_encoding, "deflate");
        }
        other => panic!("unexpected error: {:?}", other),
    }
}

#[test]
fn database_name_joins_org_and_bucket() {
    assert_eq!(org_and_bucket_to_database("MyOrg", "MyBucket"), "MyOrg_MyBucket");
}

#[test]
fn mem_writer_returns_written_bytes() {
    let mut w = MemWriter::new();
    w.write_bytes(&[1, 2, 3]);
    w.write_bytes(&[4]);
    assert_eq!(w.into_inner(), Some(vec![1, 2, 3, 4]));
}
