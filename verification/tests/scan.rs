use bulk_ingest::json::parse_json;
use bulk_ingest::metadata::{parse_bulk_index, parse_bulk_index_fast};
use bulk_ingest::response::BulkResponse;
use bulk_ingest::scan::{scan_body, DataLine, ScanError, ScanSettings};

type Found = (BulkResponse, Vec<(String, String)>, Vec<DataLine>, String, Vec<String>);

fn settings(blocked: &[&str]) -> ScanSettings {
    ScanSettings {
        org_id: "org".to_string(),
        skip_formatting_stream_name: false,
        blocked_streams: blocked.iter().map(|name| name.to_string()).collect(),
    }
}

fn scan(body: &str, blocked: &[&str]) -> Result<Found, ScanError> {
    scan_body(body.as_bytes(), &settings(blocked), &|name: String| name.to_lowercase())
        .map(|scan| scan.into_parts())
        .map_err(|(_, error)| error)
}

fn texts<'a>(body: &'a str, lines: &[DataLine]) -> Vec<&'a str> {
    lines.iter().map(|line| &body[line.start..line.end]).collect()
}

#[test]
fn plain_metadata_lines_are_read_without_json() {
    assert_eq!(
        parse_bulk_index_fast(br#"{"index":{"_index":"name"}}"#),
        Some(("index", "name", None))
    );
    assert_eq!(
        parse_bulk_index_fast(br#"{"create":{"_index":"name","_id":"id"}}"#),
        Some(("create", "name", Some("id")))
    );
    assert_eq!(
        parse_bulk_index_fast(b" {\"update\":{\"_index\":\"\",\"_id\":\"\"}}\t"),
        Some(("update", "", Some("")))
    );
    assert_eq!(
        parse_bulk_index_fast("{\"index\":{\"_index\":\"日本\"}}".as_bytes()),
        Some(("index", "日本", None))
    );
}

#[test]
fn other_metadata_lines_are_not_read_without_json() {
    assert_eq!(parse_bulk_index_fast(br#"{"index": {"_index": "name"}}"#), None);
    assert_eq!(parse_bulk_index_fast(br#"{"delete":{"_index":"name"}}"#), None);
    assert_eq!(parse_bulk_index_fast(br#"{"index":{}}"#), None);
    assert_eq!(parse_bulk_index_fast(br#"["index"]"#), None);
    assert_eq!(parse_bulk_index_fast(br#"{"index":{"_index":"name"}"#.split_last().unwrap().1), None);
    assert_eq!(parse_bulk_index_fast(b"{}"), None);
    assert_eq!(parse_bulk_index_fast(b""), None);
    assert_eq!(parse_bulk_index_fast(b"{\"index\":{\"_index\":\"\xff\"}}"), None);
}

#[test]
fn lines_of_an_unexpected_form_are_left_to_the_json_reader() {
    let lines: Vec<&[u8]> = vec![
        br#"{"index":{"_index":"a","_id": "1"}}"#,
        br#"{"index":{"_index":"a","_id" :"1"}}"#,
        br#"{"index":{"_index":"a","_id":1}}"#,
        br#"{"index":{"_index":"a\"b"}}"#,
        br#"{"index":{"_index":"a\\"}}"#,
        b"{\"index\":{\"_index\":\"a\tb\"}}",
        br#"{"index":{"_index":"n","_id":"i}}"#,
        br#"{"index":{"_index":"n"},"x":{"_id":"i"}}"#,
        br#"{"index":{"_index":"n","x":{"_id":"i"}}}"#,
        br#"{"index":{"_index":"n","_index":"m"}}"#,
        br#"{"index":{"_index":"n"}} }}"#,
        br#"{"index":{"_index":"n",}}"#,
    ];
    for line in lines {
        assert_eq!(parse_bulk_index_fast(line), None);
    }
}

#[test]
fn the_two_readers_agree_on_plain_objects() {
    let lines = vec![
        r#"{"index":{"_index":"a"}}"#,
        r#"{"create":{"_index":"a","_id":"b"}}"#,
        r#"{"update":{"_id":"b","routing":"_index","_index":"a"}}"#,
        r#"{"index":{"x":"_id","_index":"_id"}}"#,
        r#"{"delete":{"_index":"a"}}"#,
        r#"{"index":{"_id":"b"}}"#,
        r#"{"index":{}}"#,
        r#"{"index":{"_index":"größe 日本","":""}}"#,
    ];
    for line in lines {
        let value = parse_json(line.as_bytes()).unwrap();
        assert_eq!(parse_bulk_index_fast(line.as_bytes()), parse_bulk_index(&value));
    }
}

#[test]
fn a_document_id_behind_a_blank_is_kept() {
    let body = "{\"index\":{\"_index\":\"a\",\"_id\": \"1\"}}\n{}\n";
    let (_, _, lines, _, _) = scan(body, &[]).unwrap();
    assert_eq!(lines[0].doc_id, Some("1".to_string()));
}

#[test]
fn a_repeated_line_says_what_it_said_before_a_refused_one() {
    let meta = "{\"index\":{\"_index\":\"a\"}}";
    let refused = "{\"create\":{\"_index\":\"_\",\"_id\":\"9\"}}";
    let body = format!("{meta}\n{{\"x\":1}}\n{refused}\n{meta}\n{{\"x\":2}}\n");
    let (response, streams, lines, action, _) = scan(&body, &[]).unwrap();
    assert_eq!(streams, vec![("a".to_string(), "index".to_string())]);
    assert_eq!(lines.len(), 2);
    assert_eq!(lines[1].doc_id, None);
    assert_eq!(lines[1].stream_idx, 0);
    assert_eq!(action, "index");
    assert_eq!(response.items.len(), 1);
    assert_eq!(response.items[0].get("create").unwrap()._id, "9");
}

#[test]
fn a_repeated_line_says_what_it_said_before_a_blocked_one() {
    let meta = "{\"index\":{\"_index\":\"a\",\"_id\":\"1\"}}";
    let blocked = "{\"create\":{\"_index\":\"bad\",\"_id\":\"9\"}}";
    let body = format!("{meta}\n{{\"x\":1}}\n{blocked}\n{{\"x\":2}}\n{meta}\n{{\"x\":3}}\n");
    let (_, streams, lines, _, skipped) = scan(&body, &["org/logs/bad"]).unwrap();
    assert_eq!(streams.len(), 1);
    assert_eq!(texts(&body, &lines), vec!["{\"x\":1}", "{\"x\":3}"]);
    assert_eq!(lines[1].doc_id, Some("1".to_string()));
    assert_eq!(skipped, vec!["bad".to_string()]);
}

#[test]
fn metadata_objects_are_read_by_action() {
    let read = |text: &str| {
        let value = parse_json(text.as_bytes()).unwrap();
        parse_bulk_index(&value).map(|(action, index, id)| {
            (action.to_string(), index.to_string(), id.map(|id| id.to_string()))
        })
    };
    let named = |action: &str, index: &str, id: Option<&str>| {
        Some((action.to_string(), index.to_string(), id.map(|id| id.to_string())))
    };
    assert_eq!(read(r#"{"index": {"_index": "a"}}"#), named("index", "a", None));
    assert_eq!(
        read(r#"{"update": {"_index": "a", "_id": "b"}}"#),
        named("update", "a", Some("b"))
    );
    assert_eq!(
        read(r#"{"index": {"_index": "a"}, "create": {"_index": "b"}}"#),
        named("create", "b", None)
    );
    assert_eq!(
        read(r#"{"create": 1, "index": {"_index": "a", "_id": 7}}"#),
        named("index", "a", None)
    );
    assert_eq!(read(r#"{"create": {"_index": 1}}"#), None);
    assert_eq!(read(r#"{"delete": {"_index": "a"}}"#), None);
    assert_eq!(read("{}"), None);
}

#[test]
fn records_follow_their_metadata() {
    let body = "{\"index\":{\"_index\":\"A\",\"_id\":\"1\"}}\r\n{\"x\":1}\r\n\n{\"create\": {\"_index\": \"B\"}}\n{\"x\":2}";
    let (response, streams, lines, action, _) = scan(body, &[]).unwrap();
    assert_eq!(response, BulkResponse::new());
    assert_eq!(
        streams,
        vec![
            ("a".to_string(), "index".to_string()),
            ("b".to_string(), "create".to_string())
        ]
    );
    assert_eq!(texts(body, &lines), vec!["{\"x\":1}", "{\"x\":2}"]);
    assert_eq!(lines[0].stream_idx, 0);
    assert_eq!(lines[0].doc_id, Some("1".to_string()));
    assert_eq!(lines[1].stream_idx, 1);
    assert_eq!(lines[1].doc_id, None);
    assert_eq!(action, "create");
}

#[test]
fn repeated_metadata_lines_are_not_read_again() {
    let meta = "{\"index\":{\"_index\":\"s\",\"_id\":\"1\"}}";
    let body = format!("{meta}\n{{\"x\":1}}\n{meta}\n{{\"x\":2}}\n");
    let (_, streams, lines, _, _) = scan(&body, &[]).unwrap();
    assert_eq!(streams.len(), 1);
    assert_eq!(lines.len(), 2);
    assert_eq!(lines[1].doc_id, Some("1".to_string()));
    assert_eq!(lines[1].stream_idx, 0);
}

#[test]
fn names_are_formatted_unless_that_is_skipped() {
    let body = b"{\"index\":{\"_index\":\"Name\"}}\n{}\n";
    let mut given = settings(&[]);
    given.skip_formatting_stream_name = true;
    let (_, streams, _, _, _) =
        scan_body(body, &given, &|name: String| name.to_lowercase()).unwrap().into_parts();
    assert_eq!(streams[0].0, "Name");
}

#[test]
fn one_stream_under_two_actions_is_two_streams() {
    let body = "{\"index\":{\"_index\":\"s\"}}\n{}\n{\"create\":{\"_index\":\"s\"}}\n{}\n";
    let (_, streams, lines, _, _) = scan(body, &[]).unwrap();
    assert_eq!(streams.len(), 2);
    assert_eq!(lines[1].stream_idx, 1);
}

#[test]
fn invalid_stream_names_are_answered() {
    let line = "{\"create\":{\"_index\":\"_\",\"_id\":\"9\"}}";
    let body = format!("{line}\n{{\"index\":{{\"_index\":\"ok\"}}}}\n{{\"x\":1}}\n");
    let (response, streams, lines, _, _) = scan(&body, &[]).unwrap();
    assert!(response.errors);
    assert_eq!(response.items.len(), 1);
    let item = response.items[0].get("create").unwrap();
    assert_eq!(item._index, "_");
    assert_eq!(item._id, "9");
    assert_eq!(item.stream_name, "_");
    let error = item.error.as_ref().unwrap();
    assert_eq!(error.reason, format!("Invalid stream name: {line}"));
    assert_eq!(error.err_type, error.reason);
    assert_eq!(error.index, "_");
    assert_eq!(streams.len(), 1);
    assert_eq!(texts(&body, &lines), vec!["{\"x\":1}"]);
}

#[test]
fn a_refused_line_is_told_as_text() {
    let line = "{\"index\": {\"_index\": \"\"}, \"größe\": 1}";
    let (response, _, _, action, _) = scan(line, &[]).unwrap();
    let item = response.items[0].get("index").unwrap();
    assert_eq!(
        item.error.as_ref().unwrap().reason,
        "Invalid stream name: {\"index\": {\"_index\": \"\"}, \"größe\": 1}"
    );
    assert_eq!(action, "index");
}

#[test]
fn blocked_streams_take_no_record() {
    let body = "{\"index\":{\"_index\":\"Bad\"}}\n{\"index\":{\"_index\":\"good\"}}\n{\"x\":1}\n";
    let (response, streams, lines, _, _) = scan(body, &["org/logs/bad"]).unwrap();
    assert_eq!(streams, vec![("good".to_string(), "index".to_string())]);
    assert_eq!(lines.len(), 1);
    assert!(response.items.is_empty());
    let (_, streams, _, _, _) = scan(body, &["other/logs/bad"]).unwrap();
    assert_eq!(streams[0].0, "bad");
}

#[test]
fn the_line_behind_a_blocked_stream_is_read_as_metadata() {
    let body = "{\"index\":{\"_index\":\"bad\"}}\n{\"x\":1}\n";
    let (_, streams, lines, _, _) = scan(body, &["org/logs/bad"]).unwrap();
    assert!(streams.is_empty());
    assert!(lines.is_empty());
}

#[test]
fn a_blocked_stream_is_blocked_at_every_line() {
    let meta = "{\"index\":{\"_index\":\"bad\"}}";
    let body = format!("{meta}\n{{\"x\":1}}\n{meta}\n{{\"x\":2}}\n");
    let (response, streams, lines, _, skipped) = scan(&body, &["org/logs/bad"]).unwrap();
    assert!(streams.is_empty());
    assert!(lines.is_empty());
    assert!(response.items.is_empty());
    assert_eq!(skipped, vec!["bad".to_string(), "bad".to_string()]);
}

#[test]
fn metadata_that_names_nothing_is_passed_over() {
    let body = "{}\n{\"delete\":{\"_index\":\"s\"}}\n{\"index\":{\"_index\":\"s\"}}\n{\"x\":1}\n";
    let (response, _, lines, _, _) = scan(body, &[]).unwrap();
    assert_eq!(texts(body, &lines), vec!["{\"x\":1}"]);
    assert!(!response.errors);
}

#[test]
fn metadata_that_is_no_json_ends_the_scan() {
    match scan("not-json\n", &[]) {
        Err(ScanError::NotJson(error)) => {
            let own = parse_json(b"not-json").unwrap_err();
            assert_eq!(error.to_string(), own.to_string());
        }
        _ => panic!("no error"),
    }
    let body = "{\"index\":{\"_index\":\"s\"}}\n{\"x\":1}\n{incomplete\n";
    assert!(matches!(scan(body, &[]), Err(ScanError::NotJson(_))));
}

#[test]
fn metadata_that_is_no_object_ends_the_scan() {
    assert!(matches!(scan("[1]\n", &[]), Err(ScanError::NotObject)));
    assert!(matches!(scan("\"index\"\n", &[]), Err(ScanError::NotObject)));
}

#[test]
fn a_record_line_may_be_anything() {
    let body = "{\"index\":{\"_index\":\"s\"}}\nnot-json";
    let (_, _, lines, _, _) = scan(body, &[]).unwrap();
    assert_eq!(texts(body, &lines), vec!["not-json"]);
}

#[test]
fn a_bad_metadata_line_leaves_what_was_found_before_it() {
    let format = |name: String| name.to_lowercase();
    for (bad, not_json) in vec![("nonsense", true), ("7", false)] {
        let body = [
            r#"{"index":{"_index":"/"}}"#,
            r#"{"index":{"_index":"blocked"}}"#,
            r#"{"n":0}"#,
            r#"{"index":{"_index":"a"}}"#,
            r#"{"n":1}"#,
            bad,
            r#"{"n":2}"#,
        ]
        .join("\n");
        let (found, error) =
            scan_body(body.as_bytes(), &settings(&["org/logs/blocked"]), &format).unwrap_err();
        assert_eq!(matches!(error, ScanError::NotJson(_)), not_json);
        let (response, _, lines, _, skipped) = found.into_parts();
        assert!(response.errors);
        assert_eq!(response.items.len(), 1);
        assert_eq!(texts(&body, &lines), vec![r#"{"n":1}"#]);
        assert_eq!(skipped, vec!["blocked".to_string()]);
    }
}

#[test]
fn white_space_around_a_metadata_line_changes_nothing() {
    for line in vec![
        r#"{"index":{"_index":"a","_id":"1"}}"#,
        r#"{"create":{"_index":"b"}}"#,
        r#"{"create": {"_index": "b"}}"#,
        r#"{"delete":{"_index":"a"}}"#,
    ] {
        for (front, back) in vec![(" ", ""), ("", "\t\r"), ("\t \u{a0}", " \u{b}\u{2003} ")] {
            let padded = format!("{front}{line}{back}");
            assert_eq!(
                parse_bulk_index_fast(padded.as_bytes()),
                parse_bulk_index_fast(line.as_bytes())
            );
        }
    }
}
