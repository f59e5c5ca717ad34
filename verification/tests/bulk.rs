use bulk_ingest::batch::prepare_batch;
use bulk_ingest::dict::Dict;
use bulk_ingest::ingest::ingest;
use bulk_ingest::json::{parse_json, JsonValue, Number, Object};
use bulk_ingest::records::{DiscardReasons, TimeWindow};
use bulk_ingest::response::{
    add_record_status, BulkResponse, BulkResponseError, BulkResponseItem, PIPELINE_EXEC_FAILED,
    SCHEMA_CONFORMANCE_FAILED, TRANSFORM_FAILED, TS_PARSE_FAILED,
};
use bulk_ingest::scan::{is_invalid_stream_name, ScanSettings};
use bulk_ingest::write::{PartitionTimeLevel, StreamFacts, WriteSettings};

fn json(text: &str) -> JsonValue {
    parse_json(text.as_bytes()).unwrap()
}

fn empty_response() -> BulkResponse {
    BulkResponse {
        took: 0,
        errors: false,
        items: vec![],
    }
}

fn only(item: &Dict<BulkResponseItem>) -> &BulkResponseItem {
    assert_eq!(item.len(), 1);
    item.entry(0).1
}

#[test]
fn test_add_record_status() {
    let mut bulk_res = empty_response();
    add_record_status(
        "olympics".to_string(),
        Some("1".to_string()),
        "create".to_string(),
        None,
        &mut bulk_res,
        None,
        None,
        false,
    );
    assert!(bulk_res.items.len() == 1);
}

#[test]
fn test_ingest_basic_functionality() {
    let bulk_request = r#"{"index": {"_index": "test-stream", "_id": "1"}}
{"message": "test log message", "level": "info"}"#;

    let settings = ScanSettings {
        org_id: "test-org".to_string(),
        skip_formatting_stream_name: true,
        blocked_streams: vec![],
    };
    let reasons = DiscardReasons {
        too_old: "too old".to_string(),
        too_new: "too new".to_string(),
    };
    let mut ingestion = ingest(
        bulk_request.as_bytes(),
        &settings,
        TimeWindow { min_ts: 0, max_ts: 2_000 },
        &reasons,
        &|name: String| name,
        &|_: &JsonValue| None,
        &|| 1_000i64,
    )
    .unwrap();

    let (stream_name, records) = ingestion.next_stream().unwrap();
    assert_eq!(stream_name, "test-stream");
    assert!(ingestion.next_stream().is_none());
    let records = ingestion
        .flatten_records(&stream_name, records, &|record: Object| Ok(record))
        .unwrap();
    let facts = StreamFacts {
        has_partition_keys: false,
        partition_keys: vec![],
        stream_level: PartitionTimeLevel::Unset,
        default_level: PartitionTimeLevel::Hourly,
        types_delta: None,
        is_schema_changed: false,
        enable_distinct_fields: false,
        has_alerts: false,
    };
    let write_settings = WriteSettings::new(&stream_name, facts, &vec![], &vec![], false);
    let mut status = ingestion.lend_response();
    let buffers = prepare_batch(
        records,
        &write_settings,
        &mut status,
        &|_: &JsonValue| String::new(),
        &|timestamp: i64, _: &Object| timestamp.to_string(),
    )
    .unwrap()
    .buffers;
    ingestion.write_done(&stream_name, status, true);

    let record = buffers.get("1000").unwrap()[0].as_object().unwrap();
    assert_eq!(record.get("message").unwrap().as_str(), Some("test log message"));
    assert_eq!(record.get("level").unwrap().as_str(), Some("info"));
    assert_eq!(record.get("_id").unwrap().as_str(), Some("1"));
    assert_eq!(
        *record.get("_timestamp").unwrap(),
        JsonValue::Number(Number::PosInt(1_000))
    );
    let response = ingestion.finish();
    assert!(!response.items.is_empty());
    assert!(!response.errors);
    assert_eq!(response.items[0].get("index").unwrap()._id, "1");
}

#[test]
fn test_add_record_status_success() {
    let mut bulk_res = empty_response();

    add_record_status(
        "test_stream".to_string(),
        Some("doc_123".to_string()),
        "index".to_string(),
        Some(json(r#"{"message": "test"}"#)),
        &mut bulk_res,
        None,
        None,
        false,
    );

    assert_eq!(bulk_res.items.len(), 1);

    let item = &bulk_res.items[0];
    assert!(item.contains_key("index"));

    let bulk_item = item.get("index").unwrap();
    assert!(!bulk_item._index.is_empty());
    assert!(!bulk_item._id.is_empty());
}

#[test]
fn test_add_record_status_with_failure() {
    let mut bulk_res = empty_response();

    add_record_status(
        "test_stream".to_string(),
        Some("doc_456".to_string()),
        "create".to_string(),
        Some(json(r#"{"data": "test"}"#)),
        &mut bulk_res,
        Some(TS_PARSE_FAILED.to_string()),
        Some("Invalid timestamp format".to_string()),
        false,
    );

    assert_eq!(bulk_res.items.len(), 1);

    let item = &bulk_res.items[0];
    assert!(item.contains_key("create"));

    let bulk_item = item.get("create").unwrap();
    assert!(bulk_item.error.is_some());
}

#[test]
fn test_add_record_status_empty_action() {
    let mut bulk_res = empty_response();

    add_record_status(
        "test_stream".to_string(),
        None,
        "".to_string(),
        None,
        &mut bulk_res,
        None,
        None,
        false,
    );

    assert_eq!(bulk_res.items.len(), 1);
    let item = &bulk_res.items[0];
    assert!(item.contains_key("index"));
}

#[test]
fn test_add_record_status_no_doc_id() {
    let mut bulk_res = empty_response();

    add_record_status(
        "stream_without_id".to_string(),
        None,
        "update".to_string(),
        Some(json(r#"{"field": "value"}"#)),
        &mut bulk_res,
        None,
        None,
        false,
    );

    assert_eq!(bulk_res.items.len(), 1);
    let item = &bulk_res.items[0];
    let bulk_item = item.get("update").unwrap();
    assert_eq!(bulk_item._id, "");
}

#[test]
fn test_add_record_status_different_failure_types() {
    let mut bulk_res = empty_response();

    let failure_types = [
        TRANSFORM_FAILED,
        TS_PARSE_FAILED,
        SCHEMA_CONFORMANCE_FAILED,
        PIPELINE_EXEC_FAILED,
    ];

    for (i, failure_type) in failure_types.iter().enumerate() {
        add_record_status(
            format!("stream_{i}"),
            Some(format!("doc_{i}")),
            "index".to_string(),
            Some(json(&format!(r#"{{"test": {i}}}"#))),
            &mut bulk_res,
            Some(failure_type.to_string()),
            Some(format!("Error message {i}")),
            false,
        );
    }

    assert_eq!(bulk_res.items.len(), 4);

    for (i, failure_type) in failure_types.iter().enumerate() {
        let item = &bulk_res.items[i];
        let bulk_item = item.get("index").unwrap();
        let error = bulk_item.error.as_ref().unwrap();
        assert_eq!(error.err_type, *failure_type);
        assert_eq!(error.reason, format!("Error message {i}"));
        assert_eq!(error.index, format!("stream_{i}"));
        assert_eq!(error.shard, "0");
    }
}

#[test]
fn test_add_record_status_with_complex_json() {
    let mut bulk_res = empty_response();

    let complex_json = json(
        r#"{
            "timestamp": "2024-01-01T12:00:00Z",
            "level": "ERROR",
            "message": "Complex error occurred",
            "metadata": {
                "service": "api-gateway",
                "version": "1.0.0",
                "tags": ["critical", "authentication"]
            },
            "error_details": {
                "code": 500,
                "stack_trace": "...",
                "user_id": "user123"
            }
        }"#,
    );

    add_record_status(
        "complex_logs".to_string(),
        Some("complex_doc_1".to_string()),
        "index".to_string(),
        Some(complex_json.clone()),
        &mut bulk_res,
        None,
        None,
        false,
    );

    assert_eq!(bulk_res.items.len(), 1);
    let item = &bulk_res.items[0];
    let bulk_item = item.get("index").unwrap();

    assert_eq!(bulk_item.status, 200);
    assert!(bulk_item.error.is_none());
    assert!(!bulk_item._index.is_empty());
    assert!(bulk_item.original_record.is_none());
}

#[test]
fn test_error_constants_uniqueness() {
    let constants = vec![
        TRANSFORM_FAILED,
        TS_PARSE_FAILED,
        SCHEMA_CONFORMANCE_FAILED,
        PIPELINE_EXEC_FAILED,
    ];

    let mut unique_constants = constants.clone();
    unique_constants.sort();
    unique_constants.dedup();

    assert_eq!(constants.len(), unique_constants.len());
}

#[test]
fn test_bulk_response_initialization() {
    let bulk_res = empty_response();

    assert_eq!(bulk_res.took, 0);
    assert!(!bulk_res.errors);
    assert!(bulk_res.items.is_empty());
    assert_eq!(bulk_res, BulkResponse::new());
}

#[test]
fn test_bulk_response_with_multiple_items() {
    let mut bulk_res = empty_response();

    for i in 0..5 {
        add_record_status(
            format!("stream_{i}"),
            Some(format!("doc_{i}")),
            "index".to_string(),
            Some(json(&format!(r#"{{"message": "log message {i}"}}"#))),
            &mut bulk_res,
            None,
            None,
            false,
        );
    }

    for i in 5..8 {
        add_record_status(
            format!("stream_{i}"),
            Some(format!("doc_{i}")),
            "index".to_string(),
            Some(json(&format!(r#"{{"message": "log message {i}"}}"#))),
            &mut bulk_res,
            Some(TS_PARSE_FAILED.to_string()),
            Some("Timestamp error".to_string()),
            false,
        );
    }

    assert_eq!(bulk_res.items.len(), 8);

    let successful_items: usize = bulk_res
        .items
        .iter()
        .map(|item| if only(item).error.is_none() { 1 } else { 0 })
        .sum();

    let failed_items: usize = bulk_res
        .items
        .iter()
        .map(|item| if only(item).error.is_some() { 1 } else { 0 })
        .sum();

    assert_eq!(successful_items, 5);
    assert_eq!(failed_items, 3);
}

#[test]
fn test_json_parsing_valid_data() {
    let valid_json =
        r#"{"message": "test log", "level": "info", "timestamp": "2024-01-01T10:00:00Z"}"#;
    let result = parse_json(valid_json.as_bytes());
    assert!(result.is_ok());

    let value = result.unwrap();
    let object = value.as_object().unwrap();
    assert_eq!(object.get("message").unwrap().as_str(), Some("test log"));
    assert_eq!(object.get("level").unwrap().as_str(), Some("info"));
}

#[test]
fn test_json_parsing_invalid_data() {
    let invalid_json = r#"{"message": "test log", "level": info"}"#;
    let result = parse_json(invalid_json.as_bytes());
    assert!(result.is_err());
}

#[test]
fn test_valid_stream_names() {
    let valid_names = vec![
        "test-stream",
        "application_logs",
        "service.metrics",
        "stream123",
        "a_very_long_stream_name_with_underscores_and_numbers_123",
    ];

    for name in valid_names {
        assert!(!name.is_empty());
        assert!(name != "_");
        assert!(name != "/");
        assert!(!is_invalid_stream_name(name));
    }
}

#[test]
fn test_invalid_stream_names() {
    let invalid_names = vec!["", "_", "/"];

    for name in invalid_names {
        assert!(name.is_empty() || name == "_" || name == "/");
        assert!(is_invalid_stream_name(name));
    }
}

#[test]
fn test_bulk_response_error_creation() {
    let error = BulkResponseError::new(
        TS_PARSE_FAILED.to_string(),
        "test-stream".to_string(),
        "Invalid timestamp format".to_string(),
        "400".to_string(),
    );

    assert!(!format!("{error:?}").is_empty());
    assert_eq!(error.shard, "400");
}

#[test]
fn test_different_error_scenarios() {
    let mut bulk_res = empty_response();

    let error_scenarios = vec![
        (TRANSFORM_FAILED, "JSON transformation failed"),
        (TS_PARSE_FAILED, "Cannot parse timestamp"),
        (SCHEMA_CONFORMANCE_FAILED, "Schema validation failed"),
        (PIPELINE_EXEC_FAILED, "Pipeline execution error"),
    ];

    for (error_type, error_msg) in error_scenarios {
        add_record_status(
            "error_stream".to_string(),
            Some("error_doc".to_string()),
            "index".to_string(),
            Some(json(r#"{"error": "test"}"#)),
            &mut bulk_res,
            Some(error_type.to_string()),
            Some(error_msg.to_string()),
            false,
        );
    }

    assert_eq!(bulk_res.items.len(), 4);

    for item in &bulk_res.items {
        assert!(only(item).error.is_some());
    }
}

#[test]
fn test_empty_bulk_request() {
    let empty_request = "";
    let body = actix_web::web::Bytes::from(empty_request);
    assert_eq!(body.len(), 0);

    let settings = ScanSettings {
        org_id: "default".to_string(),
        skip_formatting_stream_name: false,
        blocked_streams: vec![],
    };
    let reasons = DiscardReasons {
        too_old: String::new(),
        too_new: String::new(),
    };
    let mut ingestion = ingest(
        &body,
        &settings,
        TimeWindow { min_ts: 0, max_ts: 1 },
        &reasons,
        &|name: String| name,
        &|_: &JsonValue| None,
        &|| 0i64,
    )
    .unwrap();
    assert!(ingestion.next_stream().is_none());
    assert_eq!(ingestion.finish(), BulkResponse::new());
}

#[test]
fn test_malformed_bulk_lines() {
    let malformed_lines = vec![
        "",
        "not-json",
        "{incomplete json",
        "{}",
        r#"{"index": {}}"#,
    ];
    let mut valid = 0;
    let mut invalid = 0;

    for line in malformed_lines {
        if line.is_empty() {
            continue;
        }

        if parse_json(line.as_bytes()).is_ok() {
            valid += 1;
        } else {
            invalid += 1;
        }
    }
    assert_eq!(valid, 2);
    assert_eq!(invalid, 2);
}

#[test]
fn test_very_large_documents() {
    let large_value = "x".repeat(10000);
    let large_doc = json(&format!(
        r#"{{"message": "{}", "metadata": {{"large_field": "{}", "nested": {{"data": "{}"}}}}}}"#,
        large_value,
        "y".repeat(5000),
        "z".repeat(3000)
    ));

    let mut bulk_res = empty_response();

    add_record_status(
        "large_docs".to_string(),
        Some("large_doc_1".to_string()),
        "index".to_string(),
        Some(large_doc),
        &mut bulk_res,
        None,
        None,
        false,
    );

    assert_eq!(bulk_res.items.len(), 1);
}

#[test]
fn test_unicode_and_special_characters() {
    let mut unicode_doc = Object::new();
    let fields = vec![
        ("message", "Hello 世界! 🌍 Testing Unicode"),
        ("emoji", "🚀🌟✨"),
        ("special_chars", "!@#$%^&*()[]{}|\\:;\"'<>?,./"),
        ("unicode_text", "Здравствуй мир! ¡Hola mundo!"),
        ("japanese", "こんにちは世界"),
    ];
    for (name, text) in fields {
        unicode_doc.insert(name.to_string(), JsonValue::String(text.to_string()));
    }

    let mut bulk_res = empty_response();

    add_record_status(
        "unicode_stream".to_string(),
        Some("unicode_doc".to_string()),
        "index".to_string(),
        Some(JsonValue::Object(unicode_doc)),
        &mut bulk_res,
        None,
        None,
        false,
    );

    assert_eq!(bulk_res.items.len(), 1);

    let item = &bulk_res.items[0];
    assert!(!only(item)._index.is_empty());
}

#[test]
fn test_null_and_empty_values() {
    let doc_with_nulls = json(
        r#"{
            "null_field": null,
            "empty_string": "",
            "empty_array": [],
            "empty_object": {},
            "zero_number": 0,
            "false_boolean": false
        }"#,
    );

    let mut bulk_res = empty_response();

    add_record_status(
        "null_values_stream".to_string(),
        Some("null_doc".to_string()),
        "index".to_string(),
        Some(doc_with_nulls),
        &mut bulk_res,
        None,
        None,
        false,
    );

    assert_eq!(bulk_res.items.len(), 1);
}

#[test]
fn test_bulk_response_performance() {
    let mut bulk_res = empty_response();

    let start = std::time::Instant::now();

    for i in 0..1000 {
        let mut doc = Object::new();
        doc.insert("id".to_string(), JsonValue::Number(Number::from_i64(i)));
        doc.insert(
            "message".to_string(),
            JsonValue::String(format!("Performance test message {i}")),
        );
        doc.insert(
            "timestamp".to_string(),
            JsonValue::String(format!("2024-01-01T{:02}:00:00Z", i % 24)),
        );
        add_record_status(
            format!("perf_stream_{}", i % 10),
            Some(format!("doc_{i}")),
            if i % 2 == 0 {
                "index".to_string()
            } else {
                "create".to_string()
            },
            Some(JsonValue::Object(doc)),
            &mut bulk_res,
            if i % 10 == 0 {
                Some(TS_PARSE_FAILED.to_string())
            } else {
                None
            },
            if i % 10 == 0 {
                Some("Test error".to_string())
            } else {
                None
            },
            false,
        );
    }

    let duration = start.elapsed();
    assert_eq!(bulk_res.items.len(), 1000);

    assert!(duration.as_secs() < 1);

    let errors: usize = bulk_res
        .items
        .iter()
        .map(|item| if only(item).error.is_some() { 1 } else { 0 })
        .sum();

    assert_eq!(errors, 100);
}

#[test]
fn successes_are_left_out_where_only_errors_are_answered() {
    let mut bulk_res = BulkResponse::new();
    add_record_status(
        "s".to_string(),
        None,
        "index".to_string(),
        None,
        &mut bulk_res,
        None,
        None,
        true,
    );
    assert!(bulk_res.items.is_empty());
    add_record_status(
        "s".to_string(),
        None,
        "index".to_string(),
        Some(JsonValue::Bool(true)),
        &mut bulk_res,
        Some(TRANSFORM_FAILED.to_string()),
        Some("why".to_string()),
        true,
    );
    assert_eq!(bulk_res.items.len(), 1);
    let item = only(&bulk_res.items[0]);
    assert_eq!(item.status, 422);
    assert_eq!(item.original_record, Some(JsonValue::Bool(true)));
    assert!(!bulk_res.errors);
}
