use bulk_ingest::batch::prepare_batch;
use bulk_ingest::json::{JsonValue, Number, Object};
use bulk_ingest::response::{
    BulkResponse, IngestionStatus, RecordStatus, SCHEMA_CONFORMANCE_FAILED,
};
use bulk_ingest::schema::{DataType, Field};
use bulk_ingest::usage::dropped_records;
use bulk_ingest::write::{
    admit_records, bucket, distinct_values, fill_buffers, fill_one_buffer, has_room,
    sends_distinct_values, takes_one_buffer, AdmitStop, PartitionTimeLevel, StreamFacts,
    WriteSettings,
};
use std::cell::Cell;

const HOUR: i64 = 3_600_000_000;
const DAY: i64 = 86_400_000_000;

fn facts() -> StreamFacts {
    StreamFacts {
        has_partition_keys: false,
        partition_keys: vec![],
        stream_level: PartitionTimeLevel::Unset,
        default_level: PartitionTimeLevel::Hourly,
        types_delta: None,
        is_schema_changed: false,
        enable_distinct_fields: false,
        has_alerts: false,
    }
}

fn settings(facts: StreamFacts, errors_only: bool) -> WriteSettings {
    WriteSettings::new(
        "s",
        facts,
        &vec!["service".to_string()],
        &vec!["level".to_string(), "host".to_string()],
        errors_only,
    )
}

fn record(fields: &[(&str, &str)]) -> Object {
    let mut object = Object::new();
    for (name, text) in fields {
        object.insert(name.to_string(), JsonValue::String(text.to_string()));
    }
    object
}

fn counts() -> IngestionStatus {
    IngestionStatus::Record(RecordStatus {
        successful: 10,
        failed: 20,
        error: "old".to_string(),
    })
}

fn render(_: &JsonValue) -> String {
    "text".to_string()
}

fn hour_key(timestamp: i64, _: &Object) -> String {
    format!("h{}", timestamp / HOUR)
}

#[test]
fn buckets_are_hours_or_days() {
    assert_eq!(bucket(HOUR - 1, PartitionTimeLevel::Hourly), 0);
    assert_eq!(bucket(HOUR, PartitionTimeLevel::Hourly), 1);
    assert_eq!(bucket(HOUR, PartitionTimeLevel::Unset), 1);
    assert_eq!(bucket(DAY - 1, PartitionTimeLevel::Daily), 0);
    assert_eq!(bucket(DAY, PartitionTimeLevel::Daily), 1);
    assert_eq!(bucket(-1, PartitionTimeLevel::Hourly), 0);
    assert_eq!(bucket(-HOUR, PartitionTimeLevel::Hourly), -1);
}

#[test]
fn alike_records_of_one_bucket_take_one_buffer() {
    let records = vec![(HOUR, record(&[])), (2 * HOUR - 1, record(&[]))];
    assert!(takes_one_buffer(&records, &settings(facts(), false)));
    assert!(!takes_one_buffer(&vec![], &settings(facts(), false)));
    let apart = vec![(HOUR, record(&[])), (2 * HOUR, record(&[]))];
    assert!(!takes_one_buffer(&apart, &settings(facts(), false)));
    let daily = StreamFacts {
        default_level: PartitionTimeLevel::Daily,
        ..facts()
    };
    assert!(takes_one_buffer(&apart, &settings(daily, false)));
}

#[test]
fn records_that_differ_take_no_one_buffer() {
    let records = vec![(HOUR, record(&[]))];
    let keyed = StreamFacts {
        has_partition_keys: true,
        partition_keys: vec!["k".to_string()],
        ..facts()
    };
    assert!(!takes_one_buffer(&records, &settings(keyed, false)));
    let unused_keys = StreamFacts {
        has_partition_keys: false,
        partition_keys: vec!["k".to_string()],
        ..facts()
    };
    assert!(takes_one_buffer(&records, &settings(unused_keys, false)));
    let cast = StreamFacts {
        types_delta: Some(vec![]),
        ..facts()
    };
    assert!(!takes_one_buffer(&records, &settings(cast, false)));
    let distinct = StreamFacts {
        enable_distinct_fields: true,
        ..facts()
    };
    assert!(!takes_one_buffer(&records, &settings(distinct, false)));
    let alerts = StreamFacts {
        has_alerts: true,
        ..facts()
    };
    assert!(!takes_one_buffer(&records, &settings(alerts, false)));
    let with_id = vec![(HOUR, record(&[("_id", "1")]))];
    assert!(!takes_one_buffer(&with_id, &settings(facts(), false)));
    assert!(takes_one_buffer(&with_id, &settings(facts(), true)));
}

#[test]
fn the_stream_sets_its_span_only_with_partition_keys() {
    let records = vec![(HOUR, record(&[])), (2 * HOUR, record(&[]))];
    let own = StreamFacts {
        has_partition_keys: true,
        stream_level: PartitionTimeLevel::Daily,
        ..facts()
    };
    assert!(takes_one_buffer(&records, &settings(own, false)));
    let not_own = StreamFacts {
        stream_level: PartitionTimeLevel::Daily,
        ..facts()
    };
    assert!(!takes_one_buffer(&records, &settings(not_own, false)));
}

#[test]
fn one_buffer_is_what_one_by_one_would_give() {
    let records = || {
        vec![
            (HOUR + 1, record(&[("n", "1")])),
            (HOUR, record(&[("n", "2")])),
        ]
    };
    let given = settings(facts(), false);
    let mut at_once = IngestionStatus::Bulk(BulkResponse::new());
    let buffers = fill_one_buffer(records(), &given, &mut at_once, &hour_key);
    let mut one_by_one = IngestionStatus::Bulk(BulkResponse::new());
    let admission = admit_records(records(), &given, &mut one_by_one, &render).unwrap();
    assert!(admission.refused.is_empty());
    let same = fill_buffers(admission.admitted, &given, &hour_key);
    assert_eq!(buffers, same);
    assert_eq!(at_once, one_by_one);
    assert_eq!(buffers.get("h1").unwrap().len(), 2);
    match at_once {
        IngestionStatus::Bulk(response) => {
            assert_eq!(response.items.len(), 2);
            let item = response.items[0].get("index").unwrap();
            assert_eq!(item._index, "s");
            assert_eq!(item._id, "");
            assert_eq!(item.status, 200);
        }
        _ => panic!("no bulk response"),
    }
    let mut counted = counts();
    fill_one_buffer(records(), &given, &mut counted, &hour_key);
    assert_eq!(
        counted,
        IngestionStatus::Record(RecordStatus {
            successful: 12,
            failed: 20,
            error: "old".to_string(),
        })
    );
}

#[test]
fn records_that_do_not_fit_are_counted() {
    let cast = StreamFacts {
        types_delta: Some(vec![Field::new("n", DataType::Int64, true)]),
        ..facts()
    };
    let records = vec![
        (1, record(&[("n", "5")])),
        (2, record(&[("n", "x")])),
        (3, record(&[("m", "y")])),
    ];
    let mut status = counts();
    let admission = admit_records(records, &settings(cast, false), &mut status, &render).unwrap();
    assert_eq!(admission.admitted.len(), 2);
    assert_eq!(admission.admitted[0].0, 1);
    assert_eq!(
        *admission.admitted[0].1.get("n").unwrap(),
        JsonValue::Number(Number::PosInt(5))
    );
    assert_eq!(admission.admitted[1].0, 3);
    assert_eq!(
        admission.refused,
        vec![(
            record(&[("n", "x")]),
            "Failed to cast n to type Int64 ".to_string()
        )]
    );
    assert_eq!(
        status,
        IngestionStatus::Record(RecordStatus {
            successful: 12,
            failed: 21,
            error: "Failed to cast n to type Int64 ".to_string(),
        })
    );
}

#[test]
fn records_that_do_not_fit_are_answered() {
    let cast = StreamFacts {
        types_delta: Some(vec![Field::new("n", DataType::Int64, true)]),
        ..facts()
    };
    let records = vec![
        (1, record(&[("n", "x"), ("_id", "a")])),
        (2, record(&[("n", "7"), ("_id", "b")])),
        (3, record(&[("n", "8")])),
    ];
    let mut status = IngestionStatus::Bulk(BulkResponse::new());
    admit_records(records, &settings(cast, false), &mut status, &render).unwrap();
    match status {
        IngestionStatus::Bulk(response) => {
            assert!(response.errors);
            assert_eq!(response.items.len(), 3);
            let failed = response.items[0].get("index").unwrap();
            assert_eq!(failed._id, "a");
            let error = failed.error.as_ref().unwrap();
            assert_eq!(error.err_type, SCHEMA_CONFORMANCE_FAILED);
            assert_eq!(error.reason, "Failed to cast n to type Int64 ");
            assert_eq!(
                failed.original_record,
                Some(JsonValue::Object(record(&[("n", "x"), ("_id", "a")])))
            );
            assert_eq!(response.items[1].get("index").unwrap()._id, "b");
            assert_eq!(response.items[2].get("index").unwrap()._id, "");
        }
        _ => panic!("no bulk response"),
    }
}

#[test]
fn only_errors_are_answered_without_document_ids() {
    let cast = StreamFacts {
        types_delta: Some(vec![Field::new("n", DataType::Int64, true)]),
        ..facts()
    };
    let records = vec![
        (1, record(&[("n", "x"), ("_id", "a")])),
        (2, record(&[("n", "7"), ("_id", "b")])),
    ];
    let mut status = IngestionStatus::Bulk(BulkResponse::new());
    admit_records(records, &settings(cast, true), &mut status, &render).unwrap();
    match status {
        IngestionStatus::Bulk(response) => {
            assert_eq!(response.items.len(), 1);
            assert_eq!(response.items[0].get("index").unwrap()._id, "");
        }
        _ => panic!("no bulk response"),
    }
}

#[test]
fn a_number_without_json_form_stops_the_batch() {
    let cast = StreamFacts {
        types_delta: Some(vec![Field::new("n", DataType::Float64, true)]),
        ..facts()
    };
    let records = vec![
        (1, record(&[("n", "1.5")])),
        (2, record(&[("n", "inf")])),
        (3, record(&[("n", "2.5")])),
    ];
    let mut status = counts();
    let result = admit_records(records, &settings(cast, false), &mut status, &render);
    assert_eq!(result, Err(AdmitStop::NotFinite));
    assert_eq!(
        status,
        IngestionStatus::Record(RecordStatus {
            successful: 11,
            failed: 20,
            error: "old".to_string(),
        })
    );
}

#[test]
fn the_key_of_a_bucket_is_asked_for_once() {
    let asked = Cell::new(0);
    let key = |timestamp: i64, _: &Object| {
        asked.set(asked.get() + 1);
        format!("h{}", timestamp / HOUR)
    };
    let records = vec![
        (0, record(&[("n", "1")])),
        (1, record(&[("n", "2")])),
        (HOUR, record(&[("n", "3")])),
        (2, record(&[("n", "4")])),
        (3, record(&[("n", "5")])),
    ];
    let buffers = fill_buffers(records, &settings(facts(), false), &key);
    assert_eq!(asked.get(), 3);
    assert_eq!(buffers.len(), 2);
    let texts = |key: &str| -> Vec<String> {
        buffers
            .get(key)
            .unwrap()
            .iter()
            .map(|value| {
                let object = value.as_object().unwrap();
                object.get("n").unwrap().as_str().unwrap().to_string()
            })
            .collect()
    };
    assert_eq!(texts("h0"), vec!["1", "2", "4", "5"]);
    assert_eq!(texts("h1"), vec!["3"]);
}

#[test]
fn partitioned_records_each_have_their_key() {
    let keyed = StreamFacts {
        has_partition_keys: true,
        partition_keys: vec!["k".to_string()],
        ..facts()
    };
    let records = vec![
        (0, record(&[("k", "x")])),
        (1, record(&[("k", "y")])),
        (2, record(&[("k", "x")])),
    ];
    let key = |_: i64, record: &Object| record.get("k").unwrap().as_str().unwrap().to_string();
    let buffers = fill_buffers(records, &settings(keyed, false), &key);
    assert_eq!(buffers.get("x").unwrap().len(), 2);
    assert_eq!(buffers.get("y").unwrap().len(), 1);
}

#[test]
fn distinct_values_are_gathered_by_field() {
    let distinct = StreamFacts {
        enable_distinct_fields: true,
        ..facts()
    };
    let records = vec![
        (1, record(&[("service", "a"), ("message", "m")])),
        (2, record(&[("message", "m")])),
        (3, record(&[("host", "h"), ("level", "l"), ("x", "y")])),
    ];
    let given = settings(distinct, false);
    let values = distinct_values(&records, &given);
    assert_eq!(values.len(), 2);
    assert_eq!(values[0], record(&[("service", "a")]));
    assert_eq!(values[1], record(&[("level", "l"), ("host", "h")]));
    assert!(distinct_values(&records, &settings(facts(), false)).is_empty());
    assert!(sends_distinct_values(&values, &given, "distinct_values_"));
    assert!(!sends_distinct_values(&values, &given, "s"));
    assert!(!sends_distinct_values(&vec![], &given, "distinct_values_"));
    assert!(!sends_distinct_values(&values, &settings(facts(), false), "distinct_values_"));
}

#[test]
fn refused_records_are_reported_as_dropped() {
    let cast = || StreamFacts {
        types_delta: Some(vec![Field::new("n", DataType::Int64, true)]),
        ..facts()
    };
    let records = || {
        vec![
            (1, record(&[("n", "x")])),
            (2, record(&[("n", "7")])),
            (3, record(&[("n", "y")])),
        ]
    };
    let mut status = IngestionStatus::Bulk(BulkResponse::new());
    admit_records(records(), &settings(cast(), false), &mut status, &render).unwrap();
    assert_eq!(dropped_records(&status), 2);
    let mut status = counts();
    admit_records(records(), &settings(cast(), true), &mut status, &render).unwrap();
    assert_eq!(dropped_records(&status), 22);
}

#[test]
fn an_id_that_is_no_string_stops_the_batch() {
    let mut odd = Object::new();
    odd.insert("_id".to_string(), JsonValue::Bool(true));
    let records = || vec![(1, record(&[("_id", "a")])), (2, odd.clone()), (3, record(&[]))];
    let mut status = counts();
    let result = admit_records(records(), &settings(facts(), false), &mut status, &render);
    assert_eq!(result, Err(AdmitStop::IdNotString));
    assert_eq!(
        status,
        IngestionStatus::Record(RecordStatus {
            successful: 11,
            failed: 20,
            error: "old".to_string(),
        })
    );
    let mut status = counts();
    let result = admit_records(records(), &settings(facts(), true), &mut status, &render);
    assert_eq!(result.unwrap().admitted.len(), 3);
}

#[test]
fn only_a_count_that_would_overflow_stops_the_batch() {
    let cast = || StreamFacts {
        types_delta: Some(vec![Field::new("n", DataType::Int64, true)]),
        ..facts()
    };
    let nearly_full = |successful: u32, failed: u32| {
        IngestionStatus::Record(RecordStatus {
            successful,
            failed,
            error: String::new(),
        })
    };
    let records = || vec![(1, record(&[("n", "x")])), (2, record(&[("n", "7")]))];
    let mut status = nearly_full(u32::MAX - 1, u32::MAX - 1);
    admit_records(records(), &settings(cast(), false), &mut status, &render).unwrap();
    let result = admit_records(records(), &settings(cast(), false), &mut status, &render);
    assert_eq!(result, Err(AdmitStop::CountFull));
    let mut status = nearly_full(u32::MAX, 0);
    let result = admit_records(records(), &settings(cast(), false), &mut status, &render);
    assert_eq!(result, Err(AdmitStop::CountFull));
    match &status {
        IngestionStatus::Record(counted) => {
            assert_eq!((counted.successful, counted.failed), (u32::MAX, 1))
        }
        _ => panic!("no counts"),
    }
    assert!(!has_room(&status, 1));
    assert!(has_room(&status, 0));
    assert!(has_room(&counts(), 100));
    assert!(admit_records(vec![], &settings(cast(), false), &mut status, &render).is_ok());
}

#[test]
fn room_is_asked_only_for_successes() {
    let mut status = IngestionStatus::Record(RecordStatus {
        successful: 0,
        failed: u32::MAX,
        error: String::new(),
    });
    assert!(has_room(&status, 1));
    fill_one_buffer(vec![(HOUR, record(&[]))], &settings(facts(), false), &mut status, &hour_key);
    assert_eq!(
        status,
        IngestionStatus::Record(RecordStatus {
            successful: 1,
            failed: u32::MAX,
            error: String::new(),
        })
    );
}

#[test]
fn settings_tell_keys_and_span() {
    let keyed = StreamFacts {
        has_partition_keys: true,
        partition_keys: vec!["k".to_string()],
        stream_level: PartitionTimeLevel::Daily,
        ..facts()
    };
    let given = settings(keyed, false);
    assert_eq!(*given.partition_keys(), vec!["k".to_string()]);
    assert_eq!(given.time_level(), PartitionTimeLevel::Daily);
    let unused = StreamFacts {
        partition_keys: vec!["k".to_string()],
        ..facts()
    };
    let given = settings(unused, false);
    assert!(given.partition_keys().is_empty());
    assert_eq!(given.time_level(), PartitionTimeLevel::Hourly);
}

#[test]
fn a_batch_of_one_bucket_is_prepared_at_once() {
    let asked = Cell::new(0);
    let key = |timestamp: i64, _: &Object| {
        asked.set(asked.get() + 1);
        format!("h{}", timestamp / HOUR)
    };
    let records = vec![(HOUR + 1, record(&[("n", "1")])), (HOUR, record(&[("n", "2")]))];
    let mut status = counts();
    let prepared =
        prepare_batch(records, &settings(facts(), false), &mut status, &render, &key).unwrap();
    assert_eq!(asked.get(), 1);
    assert_eq!(
        prepared.buffers.into_entries(),
        vec![(
            "h1".to_string(),
            vec![
                JsonValue::Object(record(&[("n", "1")])),
                JsonValue::Object(record(&[("n", "2")])),
            ]
        )]
    );
    assert!(prepared.watched.is_empty());
    assert!(prepared.distinct.is_empty());
    assert!(prepared.refused.is_empty());
    match status {
        IngestionStatus::Record(counted) => assert_eq!(counted.successful, 12),
        _ => panic!("no counts"),
    }
}

#[test]
fn each_record_of_a_batch_is_refused_or_buffered() {
    let all = StreamFacts {
        types_delta: Some(vec![Field::new("n", DataType::Int64, true)]),
        enable_distinct_fields: true,
        has_alerts: true,
        ..facts()
    };
    let records = vec![
        (0, record(&[("n", "1"), ("host", "a")])),
        (1, record(&[("n", "x")])),
        (HOUR, record(&[("n", "2")])),
        (2, record(&[("n", "3")])),
        (3, record(&[("n", "y")])),
        (HOUR + 1, record(&[("n", "4")])),
    ];
    let mut status = IngestionStatus::Bulk(BulkResponse::new());
    let prepared =
        prepare_batch(records, &settings(all, false), &mut status, &render, &hour_key).unwrap();
    let number = |value: &JsonValue| value.as_object().unwrap().get("n").unwrap().clone();
    let numbers = |ns: &[u64]| -> Vec<JsonValue> {
        ns.iter().map(|n| JsonValue::Number(Number::PosInt(*n))).collect()
    };
    let held = |key: &str| -> Vec<JsonValue> {
        prepared.buffers.get(key).unwrap().iter().map(number).collect()
    };
    assert_eq!(prepared.buffers.len(), 2);
    assert_eq!(held("h0"), numbers(&[1, 3]));
    assert_eq!(held("h1"), numbers(&[2, 4]));
    let watched: Vec<JsonValue> =
        prepared.watched.iter().map(|record| record.get("n").unwrap().clone()).collect();
    assert_eq!(watched, numbers(&[1, 2, 3, 4]));
    assert_eq!(prepared.distinct, vec![record(&[("host", "a")])]);
    let refused: Vec<Object> = prepared.refused.iter().map(|refused| refused.0.clone()).collect();
    assert_eq!(refused, vec![record(&[("n", "x")]), record(&[("n", "y")])]);
    match status {
        IngestionStatus::Bulk(response) => {
            let failed: Vec<bool> = response
                .items
                .iter()
                .map(|item| item.get("index").unwrap().error.is_some())
                .collect();
            assert_eq!(failed, vec![false, true, false, false, true, false]);
            let second = response.items[4].get("index").unwrap();
            assert_eq!(second.original_record, Some(JsonValue::Object(record(&[("n", "y")]))));
        }
        _ => panic!("no bulk response"),
    }
}

#[test]
fn a_batch_is_prepared_up_to_the_record_that_stops_it() {
    let mut odd = Object::new();
    odd.insert("_id".to_string(), JsonValue::Null);
    let records = vec![(1, record(&[])), (2, odd)];
    let mut status = counts();
    let given = settings(facts(), false);
    let result = prepare_batch(records, &given, &mut status, &render, &hour_key);
    assert_eq!(result, Err(AdmitStop::IdNotString));
    match status {
        IngestionStatus::Record(counted) => assert_eq!(counted.successful, 11),
        _ => panic!("no counts"),
    }
    let mut full = IngestionStatus::Record(RecordStatus {
        successful: u32::MAX,
        failed: 0,
        error: String::new(),
    });
    let result = prepare_batch(vec![(1, record(&[]))], &given, &mut full, &render, &hour_key);
    assert_eq!(result, Err(AdmitStop::CountFull));
}
