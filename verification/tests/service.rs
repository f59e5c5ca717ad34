use bulk_ingest::alerts::{alert_key, AlertTracker};
use bulk_ingest::dict::Dict;
use bulk_ingest::response::{
    add_record_status, ingestion_log_enabled, log_failed_record, BulkResponse, IngestionStatus,
    RecordStatus,
};
use bulk_ingest::json::Object;
use bulk_ingest::streams::{Answer, StreamCall};
use bulk_ingest::text::{parse_i64, parse_u64, starts_with, trimmed, utf8_text};
use bulk_ingest::triggers::{
    delete_trigger, get_alert, save_trigger, AlertAnswer, MetaHttpResponse,
};
use bulk_ingest::usage::{can_report, dropped_records, usage_report};

#[test]
fn alerts_have_keys() {
    assert_eq!(alert_key("org", "stream", "key"), "org/logs/stream/key");
}

#[test]
fn an_alert_is_triggered_once() {
    let keys = vec!["a".to_string(), "b".to_string(), "a".to_string()];
    let mut tracker = AlertTracker::new(keys);
    assert!(tracker.wants_records());
    assert_eq!(tracker.next_due(0), Some(0));
    tracker.note(0, false);
    assert_eq!(tracker.next_due(0), Some(0));
    tracker.note(0, true);
    assert_eq!(tracker.next_due(0), Some(1));
    assert_eq!(tracker.next_due(2), None);
    assert_eq!(tracker.next_due(7), None);
    tracker.note(1, true);
    assert_eq!(tracker.next_due(0), None);
    assert!(tracker.wants_records());
    assert_eq!(tracker.into_triggered(), vec![0, 1]);
}

#[test]
fn a_stream_whose_alerts_were_all_triggered_is_done() {
    let mut tracker = AlertTracker::new(vec!["a".to_string()]);
    tracker.note(0, true);
    assert!(!tracker.wants_records());
    assert_eq!(tracker.next_due(0), None);
    assert!(!AlertTracker::new(vec![]).wants_records());
}

fn bulk(failures: usize, successes: usize, errors: bool) -> IngestionStatus {
    let mut response = BulkResponse::new();
    for i in 0..failures + successes {
        let kind = if i < failures { Some("kind".to_string()) } else { None };
        add_record_status(
            "s".to_string(),
            None,
            String::new(),
            None,
            &mut response,
            kind,
            Some("why".to_string()),
            false,
        );
    }
    response.errors = errors;
    IngestionStatus::Bulk(response)
}

#[test]
fn dropped_records_are_counted() {
    let counts = IngestionStatus::Record(RecordStatus {
        successful: 3,
        failed: 4,
        error: String::new(),
    });
    assert_eq!(dropped_records(&counts), 4);
    assert_eq!(dropped_records(&bulk(2, 3, true)), 2);
    assert_eq!(dropped_records(&bulk(2, 3, false)), 0);
    assert_eq!(dropped_records(&bulk(0, 3, true)), 0);
}

#[test]
fn use_is_reported_where_functions_are_known() {
    let mut sizes: Dict<usize> = Dict::new();
    sizes.insert("s".to_string(), 4096);
    let status = bulk(1, 1, true);
    assert_eq!(usage_report("s", "u", &status, None, &sizes), None);
    let report = usage_report("s", "u", &status, Some(65_538), &sizes).unwrap();
    assert_eq!(report.user_email, Some("u".to_string()));
    assert_eq!(report.dropped_records, 1);
    assert_eq!(report.size, Some(4096));
    assert_eq!(report.functions, 2);
    let report = usage_report("t", "", &status, Some(0), &sizes).unwrap();
    assert_eq!(report.user_email, None);
    assert_eq!(report.size, None);
}

#[test]
fn requests_on_triggers_are_answered() {
    let message = |code: u16, text: &str| MetaHttpResponse {
        code,
        message: Some(text.to_string()),
        error: None,
    };
    let error = |code: u16, text: &str| MetaHttpResponse {
        code,
        message: None,
        error: Some(text.to_string()),
    };
    assert_eq!(save_trigger(), message(200, "Trigger saved"));
    assert_eq!(delete_trigger(Ok(())), message(200, "Trigger deleted "));
    assert_eq!(delete_trigger(Err("gone".to_string())), error(404, "gone"));
    let found = get_alert(Ok(7));
    assert_eq!(found, AlertAnswer::Found(7));
    assert_eq!(found.status(), 200);
    let missing: AlertAnswer<i32> = get_alert(Err("why".to_string()));
    assert_eq!(missing.status(), 404);
    assert_eq!(missing, AlertAnswer::Missing(error(404, "alert not found")));
}

#[test]
fn failed_records_are_logged_where_that_is_enabled() {
    assert_eq!(log_failed_record(false, "r", "e"), None);
    assert_eq!(
        log_failed_record(true, "Object {}", "bad"),
        Some("failed to process record with error bad : Object {} ".to_string())
    );
    assert!(ingestion_log_enabled(true, Some(true)));
    assert!(!ingestion_log_enabled(true, Some(false)));
    assert!(!ingestion_log_enabled(true, None));
    assert!(!ingestion_log_enabled(false, Some(true)));
}

#[test]
fn a_map_keeps_one_value_for_each_key() {
    let mut map: Dict<u8> = Dict::new();
    assert!(map.is_empty());
    map.insert("a".to_string(), 1);
    map.insert("b".to_string(), 2);
    map.insert("a".to_string(), 3);
    assert_eq!(map.len(), 2);
    assert_eq!(map.get("a"), Some(&3));
    assert_eq!(map.get("c"), None);
    assert_eq!(map.entry(1), ("b", &2));
    assert_eq!(map.pop(), Some(("b".to_string(), 2)));
    assert_eq!(map.into_entries(), vec![("a".to_string(), 3)]);
    let mut none: Dict<u8> = Dict::new();
    assert_eq!(none.pop(), None);
    let mut lists: Dict<Vec<u8>> = Dict::new();
    lists.push("x", 1);
    lists.push("x", 2);
    assert_eq!(lists.get("x"), Some(&vec![1, 2]));
}

#[test]
fn texts_are_cut_and_searched_as_std_does() {
    for text in vec!["", " a ", "\u{a0}\u{2003}x y\u{85}\n", "\u{200b}a", "   "] {
        assert_eq!(trimmed(text), text.trim());
    }
    assert!(starts_with("abc", "ab"));
    assert!(starts_with("abc", ""));
    assert!(!starts_with("ab", "abc"));
    assert_eq!(utf8_text("ä".as_bytes()), Some("ä"));
    assert_eq!(utf8_text(b"\xc3"), None);
}

type Streams = Dict<(Vec<(i64, Object)>, Option<usize>)>;

fn streams(names: &[(&str, Option<usize>)]) -> Streams {
    let mut streams: Streams = Dict::new();
    for (i, (name, functions)) in names.iter().enumerate() {
        streams.insert(name.to_string(), (vec![(i as i64, Object::new())], *functions));
    }
    streams
}

#[test]
fn streams_are_written_one_by_one() {
    let mut sizes: Dict<usize> = Dict::new();
    sizes.insert("d".to_string(), 7);
    let status = bulk(1, 0, true);
    assert!(can_report(&status));
    let given = streams(&[("d", Some(2)), ("e", None)]);
    let mut call = StreamCall::new(given, sizes, vec!["d".to_string()], "u", &bulk(0, 0, false));
    let mut seen = vec![];
    while let Some((turn, records)) = call.next_turn() {
        let name = turn.stream_name().to_string();
        let derived = turn.is_derived();
        let report = call.answer(turn, Answer::Written(&status));
        let reported = report.map(|report| {
            assert_eq!(report.user_email, Some("u".to_string()));
            (report.dropped_records, report.size, report.functions)
        });
        seen.push((name, records[0].0, derived, reported));
    }
    seen.sort();
    assert_eq!(
        seen,
        vec![
            ("d".to_string(), 0, true, Some((1, Some(7), 2))),
            ("e".to_string(), 1, false, None),
        ]
    );
    assert!(!call.has_failed());
}

#[test]
fn the_first_failure_ends_the_call() {
    let status = bulk(1, 0, true);
    for refused in vec![true, false] {
        let given = streams(&[("a", Some(1)), ("b", Some(1))]);
        let mut call = StreamCall::new(given, Dict::new(), vec![], "", &status);
        let (turn, _) = call.next_turn().unwrap();
        let answer = if refused { Answer::Refused } else { Answer::Failed(&status) };
        assert_eq!(call.answer(turn, answer), None);
        assert!(call.has_failed());
        assert!(call.next_turn().is_none());
    }
}

#[test]
fn a_stream_that_is_being_deleted_is_passed_over() {
    let status = bulk(1, 0, true);
    let run = |names: &[(&str, Option<usize>)]| {
        let mut call = StreamCall::new(streams(names), Dict::new(), vec![], "", &status);
        let mut written = vec![];
        while let Some((turn, _)) = call.next_turn() {
            let name = turn.stream_name().to_string();
            if name.starts_with("gone") {
                assert_eq!(call.answer(turn, Answer::Deleting), None);
            } else {
                let report = call.answer(turn, Answer::Written(&status));
                written.push((name, report));
            }
        }
        assert!(!call.has_failed());
        written.sort_by(|one, other| one.0.cmp(&other.0));
        written
    };
    let others = run(&[("a", Some(1)), ("b", None)]);
    assert_eq!(others.len(), 2);
    assert_eq!(run(&[("a", Some(1)), ("gone", Some(3)), ("b", None)]), others);
    assert!(run(&[("gone", Some(3)), ("gone too", None)]).is_empty());
}

#[test]
fn integers_are_read_as_std_reads_them() {
    for text in vec![
        "",
        "0",
        "+0",
        "-0",
        "-",
        "+",
        "007",
        "12a",
        " 1",
        "+-1",
        "--1",
        "\u{661}",
        "4294967296",
        "9223372036854775807",
        "9223372036854775808",
        "-9223372036854775808",
        "-9223372036854775809",
        "18446744073709551615",
        "18446744073709551616",
        "99999999999999999999999",
    ] {
        assert_eq!(parse_u64(text), text.parse::<u64>().ok());
        assert_eq!(parse_i64(text), text.parse::<i64>().ok());
    }
}
