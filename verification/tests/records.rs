use bulk_ingest::json::{parse_json_fast, JsonValue, Number, Object};
use bulk_ingest::records::{
    collect_records, judge_record, read_record, read_records, DiscardReasons, ParsedRecord,
    TimeWindow, TimestampReading,
};
use bulk_ingest::response::{BulkResponse, TS_PARSE_FAILED};
use bulk_ingest::scan::DataLine;

const WINDOW: TimeWindow = TimeWindow {
    min_ts: 100,
    max_ts: 200,
};

fn line(start: usize, end: usize, stream_idx: usize, doc_id: Option<&str>) -> DataLine {
    DataLine {
        start,
        end,
        stream_idx,
        doc_id: doc_id.map(|id| id.to_string()),
    }
}

fn number(n: i64) -> JsonValue {
    JsonValue::Number(Number::from_i64(n))
}

fn record(fields: &[(&str, JsonValue)]) -> Object {
    let mut object = Object::new();
    for (name, value) in fields {
        object.insert(name.to_string(), value.clone());
    }
    object
}

fn micros(value: &JsonValue) -> Option<(i64, bool)> {
    match value {
        JsonValue::Number(Number::PosInt(n)) if *n < 1000 => Some((*n as i64, true)),
        JsonValue::Number(Number::PosInt(n)) => Some(((*n / 1000) as i64, false)),
        _ => None,
    }
}

fn read(body: &str, doc_id: Option<&str>) -> ParsedRecord {
    read_record(
        body.as_bytes(),
        line(0, body.len(), 3, doc_id),
        WINDOW,
        &micros,
        &|| 150i64,
    )
}

fn reasons() -> DiscardReasons {
    DiscardReasons {
        too_old: "too old".to_string(),
        too_new: "too new".to_string(),
    }
}

fn streams() -> Vec<(String, String)> {
    vec![
        ("a".to_string(), "index".to_string()),
        ("b".to_string(), "create".to_string()),
        ("a".to_string(), "update".to_string()),
    ]
}

#[test]
fn a_window_lies_around_the_present() {
    let window = TimeWindow::around(1_000, 300, 50);
    assert_eq!(window.min_ts, 700);
    assert_eq!(window.max_ts, 1_050);
}

#[test]
fn json_lines_are_read_by_kind() {
    let value = parse_json_fast(
        br#"{"a": [1, -2, 1.5, true, null, "x\ny"], "b": {"c": 18446744073709551615}}"#,
    )
    .unwrap();
    let object = value.as_object().unwrap();
    assert_eq!(
        *object.get("a").unwrap(),
        JsonValue::Array(vec![
            number(1),
            number(-2),
            JsonValue::Number(Number::Float(1.5f64.to_bits())),
            JsonValue::Bool(true),
            JsonValue::Null,
            JsonValue::String("x\ny".to_string()),
        ])
    );
    assert_eq!(
        *object.get("b").unwrap().as_object().unwrap().get("c").unwrap(),
        JsonValue::Number(Number::PosInt(u64::MAX))
    );
    assert!(parse_json_fast(b"{").is_none());
}

#[test]
fn a_record_with_its_timestamp_is_ready() {
    assert_eq!(
        read(r#"{"_timestamp": 120, "x": "y"}"#, None),
        ParsedRecord::Ready {
            val: record(&[
                ("_timestamp", number(120)),
                ("x", JsonValue::String("y".to_string()))
            ]),
            stream_idx: 3,
            timestamp: 120,
        }
    );
}

#[test]
fn a_timestamp_in_another_form_is_rewritten() {
    assert_eq!(
        read(r#"{"_timestamp": 180000}"#, None),
        ParsedRecord::Ready {
            val: record(&[("_timestamp", number(180))]),
            stream_idx: 3,
            timestamp: 180,
        }
    );
}

#[test]
fn a_record_without_timestamp_is_of_the_present() {
    assert_eq!(
        read("{}", Some("7")),
        ParsedRecord::Ready {
            val: record(&[
                ("_id", JsonValue::String("7".to_string())),
                ("_timestamp", number(150))
            ]),
            stream_idx: 3,
            timestamp: 150,
        }
    );
}

#[test]
fn the_document_id_of_the_metadata_wins() {
    let ready = read(r#"{"_id": "own", "_timestamp": 100}"#, Some("meta"));
    match ready {
        ParsedRecord::Ready { val, .. } => {
            assert_eq!(val.get("_id").unwrap().as_str(), Some("meta"));
            assert_eq!(val.len(), 2);
        }
        _ => panic!("not ready"),
    }
}

#[test]
fn an_unreadable_timestamp_is_an_error() {
    assert_eq!(
        read(r#"{"_timestamp": "x"}"#, Some("7")),
        ParsedRecord::TimestampError {
            value: JsonValue::Object(record(&[
                ("_timestamp", JsonValue::String("x".to_string())),
                ("_id", JsonValue::String("7".to_string()))
            ])),
            stream_idx: 3,
            doc_id: Some("7".to_string()),
        }
    );
}

#[test]
fn times_outside_the_window_are_refused() {
    for (timestamp, too_old) in vec![(99, true), (201, false)] {
        assert_eq!(
            read(&format!("{{\"_timestamp\": {timestamp}}}"), None),
            ParsedRecord::OutOfRange {
                value: JsonValue::Object(record(&[("_timestamp", number(timestamp))])),
                stream_idx: 3,
                doc_id: None,
                too_old,
            }
        );
    }
    for timestamp in vec![100, 200] {
        assert!(matches!(
            read(&format!("{{\"_timestamp\": {timestamp}}}"), None),
            ParsedRecord::Ready { .. }
        ));
    }
}

#[test]
fn a_line_that_is_no_object_is_an_error() {
    assert_eq!(read("[1]", None), ParsedRecord::ParseError);
    assert_eq!(read("not-json", None), ParsedRecord::ParseError);
    assert_eq!(read("null", Some("1")), ParsedRecord::ParseError);
}

#[test]
fn records_are_judged_by_what_was_read() {
    let given = record(&[("x", number(1))]);
    assert_eq!(
        judge_record(given.clone(), line(0, 0, 2, None), WINDOW, TimestampReading::Absent(201)),
        ParsedRecord::OutOfRange {
            value: JsonValue::Object(given.clone()),
            stream_idx: 2,
            doc_id: None,
            too_old: false,
        }
    );
    assert_eq!(
        judge_record(given.clone(), line(0, 0, 2, None), WINDOW, TimestampReading::Read(150, true)),
        ParsedRecord::Ready {
            val: given.clone(),
            stream_idx: 2,
            timestamp: 150,
        }
    );
    assert_eq!(
        judge_record(given.clone(), line(0, 0, 2, None), WINDOW, TimestampReading::Unreadable),
        ParsedRecord::TimestampError {
            value: JsonValue::Object(given),
            stream_idx: 2,
            doc_id: None,
        }
    );
}

#[test]
fn many_lines_keep_their_order() {
    let mut body = String::new();
    let mut lines = vec![];
    for i in 0..200 {
        let start = body.len();
        body.push_str(&format!("{{\"_timestamp\": 150, \"n\": {i}}}"));
        lines.push(line(start, body.len(), i, None));
        body.push('\n');
    }
    let records = read_records(body.as_bytes(), lines, WINDOW, &micros, &|| 150i64);
    assert_eq!(records.len(), 200);
    for (i, parsed) in records.iter().enumerate() {
        match parsed {
            ParsedRecord::Ready { val, stream_idx, timestamp } => {
                assert_eq!(*val.get("n").unwrap(), number(i as i64));
                assert_eq!(*stream_idx, i);
                assert_eq!(*timestamp, 150);
            }
            _ => panic!("not ready"),
        }
    }
}

fn ready(n: i64, stream_idx: usize) -> ParsedRecord {
    ParsedRecord::Ready {
        val: record(&[("n", number(n))]),
        stream_idx,
        timestamp: n,
    }
}

#[test]
fn ready_records_wait_by_stream() {
    let parsed = vec![ready(1, 0), ready(2, 1), ready(3, 2), ready(4, 1)];
    let (response, groups) =
        collect_records(parsed, &streams(), BulkResponse::new(), &reasons()).unwrap();
    assert_eq!(response, BulkResponse::new());
    assert_eq!(groups.len(), 2);
    let times = |name: &str| -> Vec<i64> {
        groups.get(name).unwrap().iter().map(|record| record.0).collect()
    };
    assert_eq!(times("a"), vec![1, 3]);
    assert_eq!(times("b"), vec![2, 4]);
    assert_eq!(*groups.get("b").unwrap()[1].1.get("n").unwrap(), number(4));
}

#[test]
fn refused_records_are_answered_in_their_order() {
    let value = JsonValue::Object(record(&[("n", number(9))]));
    let parsed = vec![
        ParsedRecord::TimestampError {
            value: value.clone(),
            stream_idx: 1,
            doc_id: Some("d".to_string()),
        },
        ready(1, 0),
        ParsedRecord::OutOfRange {
            value: value.clone(),
            stream_idx: 2,
            doc_id: None,
            too_old: true,
        },
        ParsedRecord::OutOfRange {
            value: value.clone(),
            stream_idx: 0,
            doc_id: None,
            too_old: false,
        },
    ];
    let (response, groups) =
        collect_records(parsed, &streams(), BulkResponse::new(), &reasons()).unwrap();
    assert!(response.errors);
    assert_eq!(response.items.len(), 3);
    assert_eq!(groups.len(), 1);
    let first = response.items[0].get("create").unwrap();
    assert_eq!(first._index, "b");
    assert_eq!(first._id, "d");
    assert_eq!(first.original_record, Some(value));
    assert_eq!(first.error.as_ref().unwrap().err_type, TS_PARSE_FAILED);
    assert_eq!(first.error.as_ref().unwrap().reason, TS_PARSE_FAILED);
    let second = response.items[1].get("update").unwrap();
    assert_eq!(second._index, "a");
    assert_eq!(second.error.as_ref().unwrap().err_type, TS_PARSE_FAILED);
    assert_eq!(second.error.as_ref().unwrap().reason, "too old");
    let third = response.items[2].get("index").unwrap();
    assert_eq!(third.error.as_ref().unwrap().reason, "too new");
}

#[test]
fn one_line_that_is_no_object_refuses_the_request() {
    let parsed = vec![ready(1, 0), ParsedRecord::ParseError];
    assert_eq!(
        collect_records(parsed, &streams(), BulkResponse::new(), &reasons()),
        Err(("Failed to parse JSON data line".to_string(), BulkResponse::new()))
    );
}

#[test]
fn records_before_one_that_is_no_object_are_answered() {
    let bad_time = || ParsedRecord::TimestampError {
        value: number(7),
        stream_idx: 0,
        doc_id: None,
    };
    let parsed = vec![bad_time(), ready(1, 0), ParsedRecord::ParseError, bad_time()];
    let (message, response) =
        collect_records(parsed, &streams(), BulkResponse::new(), &reasons()).unwrap_err();
    assert_eq!(message, "Failed to parse JSON data line");
    assert!(response.errors);
    assert_eq!(response.items.len(), 1);
}
