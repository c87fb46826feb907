use delorean::line_parser::{index_pairs, PointType};
use delorean::memdb::{MemDB, SeriesBuffer};
use delorean::partitioned_store::{
    merge_all, merge_read_all, MergePoll, ReadBatch, ReadMergeStream, ReadValues,
    StringMergeStream,
};
use delorean::predicate::{Node, Predicate};
use delorean::types::{ReadPoint, TimestampRange};

fn setup_db() -> MemDB {
    let p1 = PointType::new_i64("cpu,host=b,region=west\tusage_system".to_string(), 1, 0);
    let p2 = PointType::new_i64("cpu,host=a,region=west\tusage_system".to_string(), 1, 0);
    let p3 = PointType::new_i64("cpu,host=a,region=west\tusage_user".to_string(), 1, 0);
    let p4 = PointType::new_i64("mem,host=b,region=west\tfree".to_string(), 1, 0);
    let p5 = PointType::new_i64("cpu,host=b,region=west\tusage_system".to_string(), 2, 1);

    let mut points = vec![p1, p2, p3, p4, p5];

    let mut memdb = MemDB::new();
    memdb.write(&mut points).unwrap();
    memdb
}

fn eq(key: &str, value: &str) -> Node {
    Node::Equal(key.to_string(), value.to_string())
}

#[test]
fn write_and_read_tag_keys() {
    let memdb = setup_db();
    let tag_keys = memdb
        .get_tag_keys(
            &TimestampRange { start: 0, end: 0 },
            &Predicate { root: None },
        )
        .unwrap();

    assert_eq!(tag_keys, vec!["_f", "_m", "host", "region"]);
}

#[test]
fn write_and_read_tag_values() {
    let memdb = setup_db();
    let tag_values = memdb
        .get_tag_values(
            "host",
            &TimestampRange { start: 0, end: 0 },
            &Predicate { root: None },
        )
        .unwrap();
    assert_eq!(tag_values, vec!["a", "b"]);
}

#[test]
fn write_and_check_size() {
    let memdb = setup_db();
    assert_eq!(memdb.size(), 704);
}

#[test]
fn write_and_get_measurement_series() {
    let memdb = setup_db();
    let pred = Predicate { root: Some(eq("_m", "cpu")) };
    let batches = memdb
        .read(10, &pred, &TimestampRange { start: 0, end: 5 })
        .unwrap();

    assert_eq!(
        batches,
        vec![
            ReadBatch {
                key: "cpu,host=b,region=west\tusage_system".to_string(),
                values: ReadValues::I64(vec![
                    ReadPoint { time: 0, value: 1 },
                    ReadPoint { time: 1, value: 2 },
                ]),
            },
            ReadBatch {
                key: "cpu,host=a,region=west\tusage_system".to_string(),
                values: ReadValues::I64(vec![ReadPoint { time: 0, value: 1 }]),
            },
            ReadBatch {
                key: "cpu,host=a,region=west\tusage_user".to_string(),
                values: ReadValues::I64(vec![ReadPoint { time: 0, value: 1 }]),
            },
        ],
    );
}

#[test]
fn write_and_get_tag_match_series() {
    let memdb = setup_db();
    let pred = Predicate { root: Some(eq("host", "a")) };
    let batches = memdb
        .read(10, &pred, &TimestampRange { start: 0, end: 5 })
        .unwrap();
    assert_eq!(
        batches,
        vec![
            ReadBatch {
                key: "cpu,host=a,region=west\tusage_system".to_string(),
                values: ReadValues::I64(vec![ReadPoint { time: 0, value: 1 }]),
            },
            ReadBatch {
                key: "cpu,host=a,region=west\tusage_user".to_string(),
                values: ReadValues::I64(vec![ReadPoint { time: 0, value: 1 }]),
            },
        ]
    );
}

#[test]
fn write_and_measurement_and_tag_match_series() {
    let memdb = setup_db();
    let pred = Predicate {
        root: Some(Node::And(
            Box::new(eq("_m", "cpu")),
            Box::new(eq("host", "b")),
        )),
    };
    let batches = memdb
        .read(10, &pred, &TimestampRange { start: 0, end: 5 })
        .unwrap();
    assert_eq!(
        batches,
        vec![ReadBatch {
            key: "cpu,host=b,region=west\tusage_system".to_string(),
            values: ReadValues::I64(vec![
                ReadPoint { time: 0, value: 1 },
                ReadPoint { time: 1, value: 2 },
            ]),
        },]
    );
}

#[test]
fn write_and_measurement_or_tag_match() {
    let memdb = setup_db();
    let pred = Predicate {
        root: Some(Node::Or(
            Box::new(eq("host", "a")),
            Box::new(eq("_m", "mem")),
        )),
    };
    let batches = memdb
        .read(10, &pred, &TimestampRange { start: 0, end: 5 })
        .unwrap();
    assert_eq!(
        batches,
        vec![
            ReadBatch {
                key: "cpu,host=a,region=west\tusage_system".to_string(),
                values: ReadValues::I64(vec![ReadPoint { time: 0, value: 1 },]),
            },
            ReadBatch {
                key: "cpu,host=a,region=west\tusage_user".to_string(),
                values: ReadValues::I64(vec![ReadPoint { time: 0, value: 1 },]),
            },
            ReadBatch {
                key: "mem,host=b,region=west\tfree".to_string(),
                values: ReadValues::I64(vec![ReadPoint { time: 0, value: 1 },]),
            },
        ]
    );
}

#[test]
fn read_without_root_fails() {
    let memdb = setup_db();
    let err = memdb
        .read(10, &Predicate { root: None }, &TimestampRange { start: 0, end: 5 })
        .unwrap_err();
    assert_eq!(err.description, "expected root node to evaluate");
}

#[test]
fn read_with_unsupported_node_fails() {
    let memdb = setup_db();
    let pred = Predicate { root: Some(Node::Not(Box::new(eq("host", "a")))) };
    let err = memdb
        .read(10, &pred, &TimestampRange { start: 0, end: 5 })
        .unwrap_err();
    assert_eq!(err.description, "unsupported predicate node");
}

#[test]
fn write_rejects_type_change() {
    let mut memdb = MemDB::new();
    let mut points = vec![PointType::new_i64("cpu,host=a\tusage".to_string(), 1, 0)];
    memdb.write(&mut points).unwrap();
    let mut points2 = vec![PointType::new_f64_bits(
        "cpu,host=a\tusage".to_string(),
        2.5f64.to_bits(),
        1,
    )];
    let err = memdb.write(&mut points2).unwrap_err();
    assert!(err.description.contains("type mismatch"));
}

#[test]
fn write_rejects_malformed_key() {
    let mut memdb = MemDB::new();
    let mut points = vec![PointType::new_i64("cpu,host=a usage".to_string(), 1, 0)];
    let err = memdb.write(&mut points).unwrap_err();
    assert!(err.description.contains("field separator"));
}

#[test]
fn index_pairs_decomposes_a_key() {
    let pairs = index_pairs("cpu,host=b,region=west\tusage_system").unwrap();
    let got: Vec<(String, String)> = pairs.into_iter().map(|p| (p.key, p.value)).collect();
    assert_eq!(
        got,
        vec![
            ("_m".to_string(), "cpu".to_string()),
            ("host".to_string(), "b".to_string()),
            ("region".to_string(), "west".to_string()),
            ("_f".to_string(), "usage_system".to_string()),
        ]
    );
}

#[test]
fn index_pairs_rejects_tag_without_equals() {
    let err = index_pairs("cpu,hostb\tusage").unwrap_err();
    assert!(err.description.contains("'='"));
}

#[test]
fn series_buffer_range_is_half_open() {
    let buffer = SeriesBuffer {
        values: vec![
            ReadPoint { time: 1, value: 10i64 },
            ReadPoint { time: 2, value: 20 },
            ReadPoint { time: 3, value: 30 },
        ],
    };
    let got = buffer.read(&TimestampRange { start: 2, end: 3 });
    assert_eq!(got, vec![ReadPoint { time: 2, value: 20 }]);
    let all = buffer.read(&TimestampRange { start: 0, end: 10 });
    assert_eq!(all.len(), 3);
    let none = buffer.read(&TimestampRange { start: 4, end: 10 });
    assert!(none.is_empty());
}

fn merge_strings(inputs: Vec<Vec<&str>>) -> Vec<String> {
    let mut merger = StringMergeStream::new(inputs.len());
    let mut pos = vec![0usize; inputs.len()];
    let mut out = Vec::new();
    loop {
        match merger.poll_next() {
            MergePoll::Pending => {
                for i in 0..inputs.len() {
                    if merger.input_pending(i) {
                        if pos[i] < inputs[i].len() {
                            let item = inputs[i][pos[i]].to_string();
                            pos[i] += 1;
                            merger.feed(i, Some(item));
                        } else {
                            merger.feed(i, None);
                        }
                    }
                }
            }
            MergePoll::Ready(Some(v)) => out.push(v),
            MergePoll::Ready(None) => return out,
        }
    }
}

#[test]
fn string_merge_stream() {
    let vals = merge_strings(vec![
        vec!["a", "c"],
        vec!["b", "c", "d"],
        vec!["c", "e", "f"],
        vec![],
    ]);

    assert_eq!(
        vals,
        vec![
            "a".to_string(),
            "b".to_string(),
            "c".to_string(),
            "d".to_string(),
            "e".to_string(),
            "f".to_string()
        ],
    );
}

fn merge_reads(inputs: Vec<Vec<ReadBatch>>) -> Vec<ReadBatch> {
    let mut merger = ReadMergeStream::new(inputs.len());
    let mut pos = vec![0usize; inputs.len()];
    let mut out = Vec::new();
    loop {
        match merger.poll_next() {
            MergePoll::Pending => {
                for i in 0..inputs.len() {
                    if merger.input_pending(i) {
                        if pos[i] < inputs[i].len() {
                            let item = inputs[i][pos[i]].clone();
                            pos[i] += 1;
                            merger.feed(i, Some(item));
                        } else {
                            merger.feed(i, None);
                        }
                    }
                }
            }
            MergePoll::Ready(Some(b)) => out.push(b),
            MergePoll::Ready(None) => return out,
        }
    }
}

fn i64_batch(key: &str, points: Vec<(i64, i64)>) -> ReadBatch {
    ReadBatch {
        key: key.to_string(),
        values: ReadValues::I64(
            points
                .into_iter()
                .map(|(time, value)| ReadPoint { time, value })
                .collect(),
        ),
    }
}

fn f64_batch(key: &str, points: Vec<(i64, f64)>) -> ReadBatch {
    ReadBatch {
        key: key.to_string(),
        values: ReadValues::F64(
            points
                .into_iter()
                .map(|(time, value)| ReadPoint { time, value: value.to_bits() })
                .collect(),
        ),
    }
}

#[test]
fn read_merge_stream() {
    let one = vec![
        i64_batch("foo", vec![(3, 30), (4, 40)]),
        f64_batch("test", vec![(1, 1.1), (2, 2.2)]),
    ];
    let two = vec![
        f64_batch("bar", vec![(5, 5.5), (6, 6.6)]),
        i64_batch("foo", vec![(1, 10), (2, 20), (6, 60), (11, 110)]),
    ];
    let three = vec![i64_batch("foo", vec![(5, 50), (10, 100)])];
    let four = vec![];

    let vals = merge_reads(vec![one, two, three, four]);

    assert_eq!(
        vals,
        vec![
            f64_batch("bar", vec![(5, 5.5), (6, 6.6)]),
            i64_batch("foo", vec![(1, 10), (2, 20), (3, 30), (4, 40)]),
            i64_batch("foo", vec![(5, 50), (6, 60), (10, 100)]),
            i64_batch("foo", vec![(11, 110)]),
            f64_batch("test", vec![(1, 1.1), (2, 2.2)]),
        ],
    )
}

#[test]
fn read_merge_stream_splits_overlapping_runs() {
    let a = vec![i64_batch("foo", vec![(1, 10), (2, 20), (6, 60), (11, 110)])];
    let b = vec![i64_batch("foo", vec![(5, 50), (10, 100)])];
    let c = vec![i64_batch("foo", vec![(3, 30), (4, 40)])];

    let vals = merge_reads(vec![a, b, c]);

    assert_eq!(
        vals,
        vec![
            i64_batch("foo", vec![(1, 10), (2, 20), (3, 30), (4, 40)]),
            i64_batch("foo", vec![(5, 50), (6, 60), (10, 100)]),
            i64_batch("foo", vec![(11, 110)]),
        ],
    )
}

#[test]
fn merge_all_joins_and_deduplicates() {
    let inputs: Vec<Vec<String>> = vec![
        vec!["a".to_string(), "c".to_string()],
        vec!["b".to_string(), "c".to_string(), "d".to_string()],
        vec!["c".to_string(), "e".to_string(), "f".to_string()],
        vec![],
    ];
    let merged = merge_all(&inputs);
    assert_eq!(merged, vec!["a", "b", "c", "d", "e", "f"]);
}

#[test]
fn merge_read_all_keeps_every_point() {
    let a = vec![i64_batch("foo", vec![(1, 10), (2, 20), (6, 60), (11, 110)])];
    let b = vec![i64_batch("foo", vec![(5, 50), (10, 100)])];
    let c = vec![i64_batch("foo", vec![(3, 30), (4, 40)])];

    let merged = merge_read_all(&vec![a, b, c]);

    assert_eq!(
        merged,
        vec![
            i64_batch("foo", vec![(1, 10), (2, 20), (3, 30), (4, 40)]),
            i64_batch("foo", vec![(5, 50), (6, 60), (10, 100)]),
            i64_batch("foo", vec![(11, 110)]),
        ],
    );
}

#[test]
fn sort_by_time_orders_points() {
    let mut batch = i64_batch("foo", vec![(3, 30), (1, 10), (2, 20)]);
    batch.sort_by_time();
    assert_eq!(batch, i64_batch("foo", vec![(1, 10), (2, 20), (3, 30)]));
}

#[test]
fn append_below_time_drains_prefix() {
    let mut target = i64_batch("foo", vec![(1, 10)]);
    let mut other = i64_batch("foo", vec![(2, 20), (5, 50)]);
    let cleared = target.append_below_time(&mut other, 3);
    assert!(!cleared);
    assert_eq!(target, i64_batch("foo", vec![(1, 10), (2, 20)]));
    assert_eq!(other, i64_batch("foo", vec![(5, 50)]));
}

#[test]
fn start_stop_times_reports_ends() {
    let batch = i64_batch("foo", vec![(1, 10), (2, 20), (9, 90)]);
    assert_eq!(batch.start_stop_times(), (1, 9));
}
