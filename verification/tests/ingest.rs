use bulk_ingest::dict::Dict;
use bulk_ingest::ingest::{ingest, pipeline_values, IngestError, Ingestion, Refusal};
use bulk_ingest::json::{JsonValue, Number, Object};
use bulk_ingest::records::{DiscardReasons, TimeWindow};
use bulk_ingest::response::{
    status_code, BulkResponse, BulkResponseItem, IngestionStatus, RecordStatus,
    PIPELINE_EXEC_FAILED, TRANSFORM_FAILED,
};
use bulk_ingest::scan::ScanSettings;

fn micros(value: &JsonValue) -> Option<(i64, bool)> {
    match value {
        JsonValue::Number(Number::PosInt(n)) => Some((*n as i64, true)),
        _ => None,
    }
}

fn run(body: &str) -> Result<Ingestion, Refusal> {
    let settings = ScanSettings {
        org_id: "org".to_string(),
        skip_formatting_stream_name: true,
        blocked_streams: vec!["org/logs/blocked".to_string()],
    };
    let reasons = DiscardReasons {
        too_old: "too old".to_string(),
        too_new: "too new".to_string(),
    };
    ingest(
        body.as_bytes(),
        &settings,
        TimeWindow { min_ts: 100, max_ts: 200 },
        &reasons,
        &|name: String| name,
        &micros,
        &|| 150i64,
    )
}

const TWO_STREAMS: &str = r#"{"index":{"_index":"a"}}
{"_timestamp":110,"n":1}
{"create":{"_index":"b","_id":"i"}}
{"_timestamp":120,"n":2}
{"index":{"_index":"a"}}
{"n":3}
{"index":{"_index":"a"}}
{"_timestamp":5,"n":4}
{"index":{"_index":"/"}}
"#;

fn item(stream: &str) -> Dict<BulkResponseItem> {
    let mut response = BulkResponse::new();
    response.push_item(
        "index".to_string(),
        BulkResponseItem::new(stream.to_string(), "x".to_string(), None, stream.to_string()),
    );
    response.items.pop().unwrap()
}

#[test]
fn a_request_is_split_by_stream() {
    let mut ingestion = run(TWO_STREAMS).unwrap();
    assert!(ingestion.response().errors);
    assert_eq!(ingestion.response().items.len(), 2);
    let mut seen = vec![];
    while let Some((stream_name, records)) = ingestion.next_stream() {
        let times: Vec<i64> = records.iter().map(|record| record.0).collect();
        seen.push((stream_name, times));
    }
    seen.sort();
    assert_eq!(
        seen,
        vec![("a".to_string(), vec![110, 150]), ("b".to_string(), vec![120])]
    );
    let response = ingestion.finish();
    assert_eq!(status_code(&response), "500");
    let first = response.items[0].get("index").unwrap();
    assert_eq!(
        first.error.as_ref().unwrap().reason,
        "Invalid stream name: {\"index\":{\"_index\":\"/\"}}"
    );
    let second = response.items[1].get("index").unwrap();
    assert_eq!(second.error.as_ref().unwrap().reason, "too old");
}

#[test]
fn bad_lines_refuse_the_request() {
    let error = |body: &str| run(body).unwrap_err().error;
    assert!(matches!(error("nonsense\n{}\n"), IngestError::NotJson(_)));
    assert!(matches!(error("7\n{}\n"), IngestError::NotObject));
    match error("{\"index\":{\"_index\":\"a\"}}\n7\n") {
        IngestError::Message(message) => {
            assert_eq!(message, "Failed to parse JSON data line")
        }
        _ => panic!("no message"),
    }
}

#[test]
fn a_refused_request_tells_what_was_answered_before() {
    let first = [
        r#"{"index":{"_index":"/"}}"#,
        r#"{"index":{"_index":"blocked"}}"#,
        r#"{"n":0}"#,
        r#"{"index":{"_index":"a"}}"#,
        r#"{"_timestamp":5}"#,
    ]
    .join("\n");
    let refusal = run(&format!("{first}\nnonsense\n")).unwrap_err();
    assert!(matches!(refusal.error, IngestError::NotJson(_)));
    assert_eq!(refusal.response.items.len(), 1);
    assert_eq!(refusal.skipped, vec!["blocked".to_string()]);
    let refusal = run(&format!("{first}\n7\n")).unwrap_err();
    assert!(matches!(refusal.error, IngestError::NotObject));
    assert_eq!(refusal.response.items.len(), 1);
    let meta = r#"{"index":{"_index":"a"}}"#;
    let refusal = run(&format!("{first}\n{meta}\n7\n{meta}\n{{\"_timestamp\":5}}\n")).unwrap_err();
    assert!(matches!(refusal.error, IngestError::Message(_)));
    assert!(refusal.response.errors);
    assert_eq!(refusal.response.items.len(), 2);
    let late = refusal.response.items[1].get("index").unwrap();
    assert_eq!(late.error.as_ref().unwrap().reason, "too old");
    assert_eq!(refusal.skipped, vec!["blocked".to_string()]);
}

#[test]
fn a_request_without_errors_is_counted_as_such() {
    let ingestion = run("{\"index\":{\"_index\":\"a\"}}\n{}\n").unwrap();
    assert_eq!(status_code(ingestion.response()), "200");
}

#[test]
fn values_are_handed_to_a_pipeline_without_timestamps() {
    let mut one = Object::new();
    one.insert("n".to_string(), JsonValue::Bool(true));
    let values = pipeline_values(vec![(1, one.clone()), (2, Object::new())]);
    assert_eq!(
        values,
        vec![JsonValue::Object(one), JsonValue::Object(Object::new())]
    );
}

#[test]
fn the_items_of_a_pipeline_are_added() {
    let mut ingestion = run("{\"index\":{\"_index\":\"a\"}}\n{}\n").unwrap();
    ingestion.pipeline_done(
        "a",
        Some(vec![vec![item("x"), item("y")], vec![], vec![item("z")]]),
    );
    let response = ingestion.finish();
    assert!(!response.errors);
    let names: Vec<&str> = response
        .items
        .iter()
        .map(|item| item.get("index").unwrap()._index.as_str())
        .collect();
    assert_eq!(names, vec!["x", "y", "z"]);
}

#[test]
fn a_failed_pipeline_is_answered_under_the_last_action() {
    let mut ingestion = run(TWO_STREAMS).unwrap();
    ingestion.pipeline_done("b", None);
    let response = ingestion.finish();
    assert_eq!(response.items.len(), 3);
    let item = response.items[2].get("index").unwrap();
    assert_eq!(item._index, "b");
    assert_eq!(item._id, "");
    assert_eq!(item.original_record, None);
    let error = item.error.as_ref().unwrap();
    assert_eq!(error.err_type, PIPELINE_EXEC_FAILED);
    assert_eq!(error.reason, PIPELINE_EXEC_FAILED);
}

#[test]
fn records_that_cannot_be_flattened_are_answered() {
    let mut ingestion = run(TWO_STREAMS).unwrap();
    let mut records = vec![];
    for n in 0..4 {
        let mut record = Object::new();
        record.insert("n".to_string(), JsonValue::Number(Number::from_i64(n)));
        records.push((n, record));
    }
    let flatten = |mut record: Object| {
        let even = match record.get("n") {
            Some(JsonValue::Number(Number::PosInt(n))) => n % 2 == 0,
            _ => false,
        };
        if even {
            record.insert("flat".to_string(), JsonValue::Bool(true));
            Ok(record)
        } else {
            Err("odd".to_string())
        }
    };
    let flat = ingestion.flatten_records("a", records, &flatten).unwrap();
    assert_eq!(flat.len(), 2);
    assert_eq!(flat[0].0, 0);
    assert_eq!(flat[1].0, 2);
    assert!(flat[1].1.contains_key("flat"));
    let response = ingestion.finish();
    assert!(response.errors);
    assert_eq!(response.items.len(), 4);
    for answered in &response.items[2..] {
        let error = answered.get("index").unwrap().error.as_ref().unwrap();
        assert_eq!(error.err_type, TRANSFORM_FAILED);
        assert_eq!(error.reason, "odd");
    }
}

#[test]
fn the_response_is_lent_and_taken_back() {
    let mut ingestion = run(TWO_STREAMS).unwrap();
    let mut status = ingestion.lend_response();
    assert_eq!(*ingestion.response(), BulkResponse::new());
    if let IngestionStatus::Bulk(response) = &mut status {
        assert_eq!(response.items.len(), 2);
        response.items.push(item("w"));
    }
    ingestion.write_done("a", status, true);
    assert_eq!(ingestion.response().items.len(), 3);
    let status = ingestion.lend_response();
    ingestion.write_done("a", status, false);
    let response = ingestion.finish();
    assert_eq!(response.items.len(), 4);
    let error = response.items[3].get("index").unwrap().error.as_ref().unwrap();
    assert_eq!(error.err_type, PIPELINE_EXEC_FAILED);
}

#[test]
fn counts_leave_the_response_as_it_is() {
    let mut ingestion = run(TWO_STREAMS).unwrap();
    let counts = IngestionStatus::Record(RecordStatus {
        successful: 1,
        failed: 0,
        error: String::new(),
    });
    ingestion.write_done("a", counts, true);
    assert_eq!(ingestion.finish().items.len(), 2);
}

#[test]
fn records_that_can_be_flattened_keep_their_order() {
    let mut ingestion = run("{\"index\":{\"_index\":\"a\"}}\n{}\n").unwrap();
    let records = vec![(3, Object::new()), (1, Object::new()), (2, Object::new())];
    let flat = ingestion.flatten_records("a", records.clone(), &|record: Object| Ok(record));
    assert_eq!(flat, Some(records));
    assert_eq!(ingestion.finish(), BulkResponse::new());
}

#[test]
fn nothing_is_written_where_no_record_can_be_flattened() {
    let mut ingestion = run("{\"index\":{\"_index\":\"a\"}}\n{}\n").unwrap();
    let refuse = |_: Object| Err("no".to_string());
    assert_eq!(ingestion.flatten_records("a", vec![(1, Object::new())], &refuse), None);
    assert_eq!(ingestion.flatten_records("a", vec![], &|record: Object| Ok(record)), None);
    assert_eq!(ingestion.finish().items.len(), 1);
}

#[test]
fn a_repeated_line_is_answered_without_the_id_of_a_refused_one() {
    let m = r#"{"index":{"_index":"a"}}"#;
    let d = r#"{"_timestamp":"not-a-timestamp"}"#;
    let refused = r#"{"index":{"_index":"_","_id":"9"}}"#;
    let response = run(&[m, d, refused, m, d].join("\n")).unwrap().finish();
    assert!(response.errors);
    assert_eq!(response.items.len(), 3);
    let item = |i: usize| response.items[i].get("index").unwrap();
    for i in 0..3 {
        assert!(item(i).error.is_some());
    }
    assert_eq!(item(0)._index, "_");
    assert_eq!(item(0)._id, "9");
    assert_eq!(item(1)._index, "a");
    assert_eq!(item(1)._id, "");
    assert_eq!(item(2)._index, "a");
    assert_eq!(item(2)._id, "");
}

#[test]
fn a_blocked_stream_has_neither_records_nor_items() {
    let m = r#"{"index":{"_index":"blocked"}}"#;
    let d = r#"{"n":1}"#;
    let mut ingestion = run(&[m, d, m, d].join("\n")).unwrap();
    assert_eq!(*ingestion.skipped(), vec!["blocked".to_string(), "blocked".to_string()]);
    assert!(ingestion.next_stream().is_none());
    assert!(ingestion.finish().items.is_empty());
}
