//! Ingestion of a bulk request: from its body to the records of each stream, and from the fate of
//! those records to the response.

use crate::dict::Dict;
use crate::json::{Json, JsonValue, Object};
use crate::records::{
    collect_records, grouped, grouped_view, law_each_line_is_read, law_ready_records_are_kept,
    law_ready_records_wait_in_order, law_refusals_are_answered,
    law_refused_records_are_answered_in_order, parsed_view, read_records, ready, ready_before,
    record_of, records_of, records_view, refused, refused_before, stops_at, streams_known,
    with_refusals, DiscardReasons, ReasonsView, RecordView, TimeWindow, PARSE_FAILED,
};
use crate::response::{
    add_record_status, entries_view, with_status, BulkResponse, BulkResponseItem, ErrorView,
    IngestionStatus, ItemView, ResponseView, StatusView, PIPELINE_EXEC_FAILED, TRANSFORM_FAILED,
};
use crate::scan::{
    body_lines, data_view, formatted_by, law_lines_lie_in_order, law_records_follow_metadata,
    scan_body, scan_result, scan_run, scan_start, ScanError, ScanOutcome, ScanSettings,
    ScanView,
};
use crate::text::views;
use vstd::prelude::*;

verus! {

/// Why a request is refused as a whole.
#[derive(Debug)]
pub enum IngestError {
    /// A metadata line is no JSON.
    NotJson(serde_json::Error),
    /// A metadata line is JSON, but no object.
    NotObject,
    /// Another error, with its text.
    Message(String),
}

/// A request that was refused as a whole: why, and the answers that were made and the blocked streams
/// that were passed over before.
#[derive(Debug)]
pub struct Refusal {
    pub error: IngestError,
    pub response: BulkResponse,
    pub skipped: Vec<String>,
}

/// A request whose lines have been read: the response as far as it is known, the records of the
/// streams that are still to be handed on, the action that was read last, and the blocked streams
/// that were passed over.
#[derive(Debug)]
pub struct Ingestion {
    response: BulkResponse,
    pending: Dict<Vec<(i64, Object)>>,
    action: String,
    skipped: Vec<String>,
}

/// What an `Ingestion` says.
pub struct IngestionView {
    pub response: ResponseView,
    pub pending: Map<Seq<char>, Seq<(i64, Map<Seq<char>, Json>)>>,
    pub action: Seq<char>,
    pub skipped: Seq<Seq<char>>,
}

impl View for Ingestion {
    type V = IngestionView;

    closed spec fn view(&self) -> IngestionView {
        IngestionView {
            response: self.response@,
            pending: grouped_view(self.pending@),
            action: self.action@,
            skipped: views(self.skipped@),
        }
    }
}

/// The records that the lines of a body may give, where the scan of the body came to its end.
pub open spec fn body_records<P: Fn(&JsonValue) -> Option<(i64, bool)>, N: Fn() -> i64>(
    parse_timestamp: P,
    now_micros: N,
    body: Seq<u8>,
    outcome: ScanOutcome,
    window: TimeWindow,
    records: Seq<RecordView>,
) -> bool {
    outcome matches ScanOutcome::Next(scan) ==> records_of(
        parse_timestamp,
        now_micros,
        body,
        scan.data_lines,
        window,
        records,
    )
}

/// A request whose records have been read: those that are ready wait by stream, and the others are
/// answered.
pub open spec fn staged(
    scan: ScanView,
    records: Seq<RecordView>,
    reasons: ReasonsView,
) -> IngestionView {
    IngestionView {
        response: with_refusals(scan.response, records, scan.streams, reasons),
        pending: grouped(records, scan.streams),
        action: scan.action,
        skipped: scan.skipped,
    }
}

/// What becomes of a request. A metadata line that is no JSON object ends it, and so does a
/// record that is none; else the records that are ready wait by stream, and the others are
/// answered.
pub open spec fn ingest_result(
    outcome: ScanOutcome,
    records: Seq<RecordView>,
    reasons: ReasonsView,
    result: Result<Ingestion, Refusal>,
) -> bool {
    match outcome {
        ScanOutcome::NotJson(scan, error) => result matches Err(refusal) && {
            &&& refusal.error == IngestError::NotJson(error)
            &&& refusal.response@ == scan.response
            &&& views(refusal.skipped@) == scan.skipped
        },
        ScanOutcome::NotObject(scan) => result matches Err(refusal) && {
            &&& refusal.error == IngestError::NotObject
            &&& refusal.response@ == scan.response
            &&& views(refusal.skipped@) == scan.skipped
        },
        ScanOutcome::Next(scan) => if records.contains(RecordView::ParseError) {
            result matches Err(refusal) && {
                &&& refusal.error matches IngestError::Message(message) && message@ == PARSE_FAILED@
                &&& exists|k: int| #[trigger]
                    stops_at(records, k) && refusal.response@ == with_refusals(
                        scan.response,
                        records.take(k),
                        scan.streams,
                        reasons,
                    )
                &&& views(refusal.skipped@) == scan.skipped
            }
        } else {
            result matches Ok(ingestion) && ingestion@ == staged(scan, records, reasons)
        },
    }
}

/// Reads the body of a bulk request. `format_stream_name` brings a stream's name into the form in
/// which it is stored, `parse_timestamp` reads a timestamp in microseconds and says whether it
/// stands there so, and `now_micros` gives the present.
pub fn ingest<
    F: Fn(String) -> String,
    P: Fn(&JsonValue) -> Option<(i64, bool)> + Sync + Send,
    N: Fn() -> i64 + Sync + Send,
>(
    body: &[u8],
    settings: &ScanSettings,
    window: TimeWindow,
    reasons: &DiscardReasons,
    format_stream_name: &F,
    parse_timestamp: &P,
    now_micros: &N,
) -> (result: Result<Ingestion, Refusal>)
    requires
        forall|name: String| format_stream_name.requires((name,)),
        forall|value: &JsonValue| parse_timestamp.requires((value,)),
        now_micros.requires(()),
    ensures
        exists|formatted: Seq<Seq<char>>, records: Seq<RecordView>|
            #![trigger formatted_by(
                *format_stream_name,
                scan_start(),
                body@,
                body_lines(body@),
                settings@,
                formatted,
            ), ingest_result(
                scan_run(scan_start(), body@, body_lines(body@), settings@, formatted),
                records,
                reasons@,
                result,
            )]
            {
                let outcome = scan_run(
                    scan_start(),
                    body@,
                    body_lines(body@),
                    settings@,
                    formatted,
                );
                &&& formatted_by(
                    *format_stream_name,
                    scan_start(),
                    body@,
                    body_lines(body@),
                    settings@,
                    formatted,
                )
                &&& body_records(
                    *parse_timestamp,
                    *now_micros,
                    body@,
                    outcome,
                    window,
                    records,
                )
                &&& ingest_result(outcome, records, reasons@, result)
            },
{
    let ghost lines = body_lines(body@);
    let scanned = scan_body(body, settings, format_stream_name);
    let ghost formatted = choose|formatted: Seq<Seq<char>>| #[trigger]
        formatted_by(*format_stream_name, scan_start(), body@, lines, settings@, formatted)
            && scan_result(
            scan_run(scan_start(), body@, lines, settings@, formatted),
            scanned,
        );
    let ghost outcome = scan_run(scan_start(), body@, lines, settings@, formatted);
    let scan = match scanned {
        Ok(scan) => scan,
        Err((scan, error)) => {
            let error = match error {
                ScanError::NotJson(error) => IngestError::NotJson(error),
                ScanError::NotObject => IngestError::NotObject,
            };
            let (response, _, _, _, skipped) = scan.into_parts();
            let result: Result<Ingestion, Refusal> = Err(Refusal { error, response, skipped });
            assert(ingest_result(outcome, Seq::empty(), reasons@, result));
            return result;
        },
    };
    proof {
        law_records_follow_metadata(body@, lines, settings@, formatted);
        law_lines_lie_in_order(body@, 0);
    }
    let (response, streams, data_lines, action, skipped) = scan.into_parts();
    let ghost given = data_view(data_lines@);
    assert forall|i: int| 0 <= i < data_lines@.len() implies {
        &&& (#[trigger] data_lines@[i]).start <= data_lines@[i].end <= body@.len()
        &&& data_lines@[i].stream_idx < streams@.len()
    } by {
        assert(given[i] == data_lines@[i]@);
        assert(outcome->Next_0.data_lines[i] == given[i]);
        let j = choose|j: int|
            0 <= j < lines.len() && (given[i].start, given[i].end) == #[trigger] lines[j];
        assert(lines[j] == (given[i].start, given[i].end));
    }
    let parsed = read_records(body, data_lines, window, parse_timestamp, now_micros);
    let ghost records = parsed_view(parsed@);
    assert(streams_known(records, streams@.len() as int)) by {
        assert forall|i: int| 0 <= i < records.len() implies match #[trigger] records[i] {
            RecordView::Ready { stream_idx, .. } => stream_idx < streams@.len(),
            RecordView::TimestampError { stream_idx, .. } => stream_idx < streams@.len(),
            RecordView::OutOfRange { stream_idx, .. } => stream_idx < streams@.len(),
            RecordView::ParseError => true,
        } by {
            assert(given[i] == data_lines@[i]@);
        }
    }
    let result = match collect_records(parsed, &streams, response, reasons) {
        Ok((response, pending)) => Ok(Ingestion { response, pending, action, skipped }),
        Err((message, response)) => Err(
            Refusal { error: IngestError::Message(message), response, skipped },
        ),
    };
    assert(ingest_result(outcome, records, reasons@, result));
    result
}

/// A response to which it is added that a stream's records, or one of them, could not be handed
/// on.
pub open spec fn with_stream_failure(
    response: ResponseView,
    stream_name: Seq<char>,
    action: Seq<char>,
    err_type: Seq<char>,
    reason: Seq<char>,
) -> ResponseView {
    with_status(
        response.with_errors(),
        stream_name,
        None,
        action,
        None,
        Some((err_type, reason)),
        false,
    )
}

/// What the items of a list of answers say.
pub open spec fn answers_view(answers: Seq<Vec<Dict<BulkResponseItem>>>) -> Seq<
    Seq<Map<Seq<char>, ItemView>>,
> {
    answers.map_values(|items: Vec<Dict<BulkResponseItem>>| entries_view(items@))
}

/// A response after a pipeline: with the items of its answers, or with its failure.
pub open spec fn after_pipeline(
    response: ResponseView,
    stream_name: Seq<char>,
    action: Seq<char>,
    answers: Option<Seq<Seq<Map<Seq<char>, ItemView>>>>,
) -> ResponseView {
    match answers {
        Some(answers) => ResponseView { items: response.items + answers.flatten(), ..response },
        None => with_stream_failure(
            response,
            stream_name,
            action,
            PIPELINE_EXEC_FAILED@,
            PIPELINE_EXEC_FAILED@,
        ),
    }
}

/// A response after the records of a stream were to be written: the one that was filled meanwhile,
/// where one was, with the failure of the stream where they could not be.
pub open spec fn after_writing(
    response: ResponseView,
    stream_name: Seq<char>,
    action: Seq<char>,
    status: StatusView,
    written: bool,
) -> ResponseView {
    let filled = match status {
        StatusView::Bulk(filled) => filled,
        StatusView::Record { .. } => response,
    };
    if written {
        filled
    } else {
        with_stream_failure(
            filled,
            stream_name,
            action,
            PIPELINE_EXEC_FAILED@,
            PIPELINE_EXEC_FAILED@,
        )
    }
}

/// What a flattened record is, or why there is none.
pub open spec fn flat_view(flat: Result<Object, String>) -> Result<
    Map<Seq<char>, Json>,
    Seq<char>,
> {
    match flat {
        Ok(record) => Ok(record@),
        Err(reason) => Err(reason@),
    }
}

/// `flat` is what the function may make of a record.
pub open spec fn flattens<F: Fn(Object) -> Result<Object, String>>(
    flatten: F,
    record: Map<Seq<char>, Json>,
    flat: Result<Map<Seq<char>, Json>, Seq<char>>,
) -> bool {
    exists|given: Object, result: Result<Object, String>|
        given@ == record && #[trigger] flatten.ensures((given,), result) && flat == flat_view(result)
}

/// Each of `flats` is what the function may make of its record.
pub open spec fn flattened_by<F: Fn(Object) -> Result<Object, String>>(
    flatten: F,
    records: Seq<(i64, Map<Seq<char>, Json>)>,
    flats: Seq<Result<Map<Seq<char>, Json>, Seq<char>>>,
) -> bool {
    &&& flats.len() == records.len()
    &&& forall|i: int|
        0 <= i < records.len() ==> flattens(flatten, records[i].1, #[trigger] flats[i])
}

/// The records that could be flattened, with their timestamps.
pub open spec fn flat_records(
    records: Seq<(i64, Map<Seq<char>, Json>)>,
    flats: Seq<Result<Map<Seq<char>, Json>, Seq<char>>>,
) -> Seq<(i64, Map<Seq<char>, Json>)>
    decreases flats.len(),
{
    if flats.len() == 0 {
        Seq::empty()
    } else {
        let before = flat_records(records, flats.drop_last());
        match flats.last() {
            Ok(flat) => before.push((records[flats.len() - 1].0, flat)),
            Err(_) => before,
        }
    }
}

/// What is left to write is the records, where there are any.
pub open spec fn left_to_write(
    left: Option<Vec<(i64, Object)>>,
    records: Seq<(i64, Map<Seq<char>, Json>)>,
) -> bool {
    match left {
        Some(left) => records.len() > 0 && records_view(left@) == records,
        None => records.len() == 0,
    }
}

/// A response with the failures of the records that could not be flattened.
pub open spec fn after_flattening(
    response: ResponseView,
    stream_name: Seq<char>,
    action: Seq<char>,
    flats: Seq<Result<Map<Seq<char>, Json>, Seq<char>>>,
) -> ResponseView
    decreases flats.len(),
{
    if flats.len() == 0 {
        response
    } else {
        let before = after_flattening(response, stream_name, action, flats.drop_last());
        match flats.last() {
            Ok(_) => before,
            Err(reason) => with_stream_failure(
                before,
                stream_name,
                action,
                TRANSFORM_FAILED@,
                reason,
            ),
        }
    }
}

/// The records of a stream as values, without their timestamps.
pub fn pipeline_values(records: Vec<(i64, Object)>) -> (result: Vec<JsonValue>)
    ensures
        result@.len() == records@.len(),
        forall|i: int|
            0 <= i < records@.len() ==> (#[trigger] result@[i])@ == Json::Object(records@[i].1@),
{
    let mut values: Vec<JsonValue> = Vec::new();
    for record in iter: records
        invariant
            iter.seq() == records@,
            values@.len() == iter.index(),
            forall|i: int|
                0 <= i < values@.len() ==> (#[trigger] values@[i])@ == Json::Object(
                    records@[i].1@,
                ),
    {
        values.push(JsonValue::Object(record.1));
    }
    values
}

impl Ingestion {
    /// Takes out the records of a stream that still waits. No order of the streams is kept.
    pub fn next_stream(&mut self) -> (result: Option<(String, Vec<(i64, Object)>)>)
        ensures
            final(self)@.response == old(self)@.response,
            final(self)@.action == old(self)@.action,
            final(self)@.skipped == old(self)@.skipped,
            match result {
                Some((stream_name, records)) => {
                    &&& old(self)@.pending.contains_key(stream_name@)
                    &&& records_view(records@) == old(self)@.pending[stream_name@]
                    &&& final(self)@.pending == old(self)@.pending.remove(stream_name@)
                },
                None => {
                    &&& old(self)@.pending == Map::<
                        Seq<char>,
                        Seq<(i64, Map<Seq<char>, Json>)>,
                    >::empty()
                    &&& final(self)@.pending == old(self)@.pending
                },
            },
    {
        let result = self.pending.pop();
        proof {
            if result is Some {
                let taken = result->Some_0;
                let stream_name = taken.0@;
                assert(self@.pending =~= old(self)@.pending.remove(stream_name));
            } else {
                assert(old(self)@.pending =~= Map::<
                    Seq<char>,
                    Seq<(i64, Map<Seq<char>, Json>)>,
                >::empty());
            }
        }
        result
    }

    fn fail_stream(&mut self, stream_name: &str, err_type: &str, reason: &str)
        ensures
            final(self)@ == (IngestionView {
                response: with_stream_failure(
                    old(self)@.response,
                    stream_name@,
                    old(self)@.action,
                    err_type@,
                    reason@,
                ),
                ..old(self)@
            }),
    {
        self.response.errors = true;
        add_record_status(
            stream_name.to_string(),
            None,
            self.action.clone(),
            None,
            &mut self.response,
            Some(err_type.to_string()),
            Some(reason.to_string()),
            false,
        );
    }

    /// Notes what a pipeline made of the records of a stream: the items of its answers, or
    /// nothing where it failed.
    pub fn pipeline_done(
        &mut self,
        stream_name: &str,
        answers: Option<Vec<Vec<Dict<BulkResponseItem>>>>,
    )
        ensures
            final(self)@ == (IngestionView {
                response: after_pipeline(
                    old(self)@.response,
                    stream_name@,
                    old(self)@.action,
                    match answers {
                        Some(answers) => Some(answers_view(answers@)),
                        None => None,
                    },
                ),
                ..old(self)@
            }),
    {
        match answers {
            Some(answers) => {
                let ghost all = answers_view(answers@);
                let ghost start = self@;
                assert(start.response.items + all.take(0).flatten() =~= start.response.items);
                for items in iter: answers
                    invariant
                        iter.seq() == answers@,
                        all == answers_view(answers@),
                        self@ == (IngestionView {
                            response: ResponseView {
                                items: start.response.items + all.take(
                                    iter.index() as int,
                                ).flatten(),
                                ..start.response
                            },
                            ..start
                        }),
                {
                    let ghost at = iter.index() as int;
                    let ghost before = self.response.items@;
                    let ghost added = items@;
                    let mut items = items;
                    self.response.items.append(&mut items);
                    proof {
                        assert(entries_view(before + added) =~= entries_view(before) + entries_view(
                            added,
                        ));
                        assert(all[at] == entries_view(added));
                        assert(all.take(at + 1) =~= all.take(at).push(all[at]));
                        all.take(at).lemma_flatten_push(all[at]);
                        assert(self@.response.items =~= start.response.items + all.take(
                            at + 1,
                        ).flatten());
                    }
                }
                assert(all.take(all.len() as int) =~= all);
            },
            None => {
                self.fail_stream(stream_name, PIPELINE_EXEC_FAILED, PIPELINE_EXEC_FAILED);
            },
        }
    }

    /// Flattens the records of a stream, and adds to the response those that cannot be. The records
    /// that could be flattened are to be written, where there are any.
    pub fn flatten_records<F: Fn(Object) -> Result<Object, String>>(
        &mut self,
        stream_name: &str,
        records: Vec<(i64, Object)>,
        flatten: &F,
    ) -> (result: Option<Vec<(i64, Object)>>)
        requires
            forall|record: Object| flatten.requires((record,)),
        ensures
            exists|flats: Seq<Result<Map<Seq<char>, Json>, Seq<char>>>| #[trigger]
                flattened_by(*flatten, records_view(records@), flats) && left_to_write(
                    result,
                    flat_records(records_view(records@), flats),
                ) && final(self)@ == (IngestionView {
                    response: after_flattening(
                        old(self)@.response,
                        stream_name@,
                        old(self)@.action,
                        flats,
                    ),
                    ..old(self)@
                }),
    {
        let ghost all = records_view(records@);
        let ghost mut flats: Seq<Result<Map<Seq<char>, Json>, Seq<char>>> = Seq::empty();
        let ghost start = self@;
        let mut kept: Vec<(i64, Object)> = Vec::new();
        assert(records_view(kept@) =~= Seq::empty());
        for record in iter: records
            invariant
                iter.seq() == records@,
                all == records_view(records@),
                forall|record: Object| flatten.requires((record,)),
                flats.len() == iter.index(),
                forall|i: int|
                    0 <= i < flats.len() ==> flattens(*flatten, all[i].1, #[trigger] flats[i]),
                records_view(kept@) == flat_records(all, flats),
                self@ == (IngestionView {
                    response: after_flattening(
                        start.response,
                        stream_name@,
                        start.action,
                        flats,
                    ),
                    ..start
                }),
        {
            let (timestamp, map) = record;
            let ghost at = iter.index() as int;
            let flat = flatten(map);
            let ghost more = flats.push(flat_view(flat));
            let ghost before = kept@;
            proof {
                assert(all[at] == (timestamp, map@));
                assert(flattens(*flatten, all[at].1, flat_view(flat)));
                assert(more.drop_last() =~= flats);
            }
            match flat {
                Ok(flat) => {
                    kept.push((timestamp, flat));
                    assert(records_view(kept@) =~= records_view(before).push((timestamp, flat@)));
                },
                Err(reason) => {
                    self.fail_stream(stream_name, TRANSFORM_FAILED, reason.as_str());
                },
            }
            proof {
                flats = more;
            }
        }
        assert(flattened_by(*flatten, all, flats));
        assert(records_view(kept@).len() == kept@.len());
        if kept.is_empty() {
            None
        } else {
            Some(kept)
        }
    }

    /// Hands the response over, to be filled while the records of a stream are written.
    pub fn lend_response(&mut self) -> (result: IngestionStatus)
        ensures
            result is Bulk,
            result->Bulk_0@ == old(self)@.response,
            final(self)@ == (IngestionView {
                response: ResponseView { took: 0, errors: false, items: Seq::empty() },
                ..old(self)@
            }),
    {
        let mut response = BulkResponse::new();
        std::mem::swap(&mut response, &mut self.response);
        IngestionStatus::Bulk(response)
    }

    /// Takes the response back when the records of a stream have been written, or could not be.
    pub fn write_done(&mut self, stream_name: &str, status: IngestionStatus, written: bool)
        ensures
            final(self)@ == (IngestionView {
                response: after_writing(
                    old(self)@.response,
                    stream_name@,
                    old(self)@.action,
                    status@,
                    written,
                ),
                ..old(self)@
            }),
    {
        if let IngestionStatus::Bulk(response) = status {
            self.response = response;
        }
        if !written {
            self.fail_stream(stream_name, PIPELINE_EXEC_FAILED, PIPELINE_EXEC_FAILED);
        }
    }

    /// The blocked streams that were passed over, in the order of their lines.
    pub fn skipped(&self) -> (result: &Vec<String>)
        ensures
            views(result@) == self@.skipped,
    {
        &self.skipped
    }

    /// The response as it is.
    pub fn response(&self) -> (result: &BulkResponse)
        ensures
            result@ == self@.response,
    {
        &self.response
    }

    /// The response when all streams have been handed on.
    pub fn finish(self) -> (result: BulkResponse)
        ensures
            result@ == self@.response,
    {
        self.response
    }
}

/// Each record of a stream is either flattened or answered by an item behind those that are there,
/// and a response has its mark of errors where it had it before or where a record was answered.
pub proof fn law_records_are_flattened_or_answered(
    response: ResponseView,
    stream_name: Seq<char>,
    action: Seq<char>,
    records: Seq<(i64, Map<Seq<char>, Json>)>,
    flats: Seq<Result<Map<Seq<char>, Json>, Seq<char>>>,
)
    ensures
        ({
            let after = after_flattening(response, stream_name, action, flats);
            let answered = after.items.len() - response.items.len();
            &&& answered >= 0
            &&& flat_records(records, flats).len() + answered == flats.len()
            &&& after.items.take(response.items.len() as int) == response.items
            &&& after.errors == (response.errors || answered > 0)
        }),
    decreases flats.len(),
{
    if flats.len() == 0 {
        assert(response.items.take(response.items.len() as int) =~= response.items);
    } else {
        let some = flats.drop_last();
        law_records_are_flattened_or_answered(response, stream_name, action, records, some);
        let before = after_flattening(response, stream_name, action, some);
        let after = after_flattening(response, stream_name, action, flats);
        assert(after.items.take(response.items.len() as int) =~= before.items.take(
            response.items.len() as int,
        ));
    }
}

/// Where every record can be flattened, nothing is answered, and the records keep their order and
/// their timestamps.
pub proof fn law_flattening_without_failure(
    response: ResponseView,
    stream_name: Seq<char>,
    action: Seq<char>,
    records: Seq<(i64, Map<Seq<char>, Json>)>,
    flats: Seq<Result<Map<Seq<char>, Json>, Seq<char>>>,
)
    requires
        flats.len() <= records.len(),
        forall|i: int| 0 <= i < flats.len() ==> #[trigger] flats[i] is Ok,
    ensures
        after_flattening(response, stream_name, action, flats) == response,
        flat_records(records, flats) == Seq::new(
            flats.len(),
            |i: int| (records[i].0, flats[i]->Ok_0),
        ),
    decreases flats.len(),
{
    if flats.len() > 0 {
        let some = flats.drop_last();
        assert forall|i: int| 0 <= i < some.len() implies #[trigger] some[i] is Ok by {
            assert(some[i] == flats[i]);
        }
        law_flattening_without_failure(response, stream_name, action, records, some);
        assert(flats[flats.len() - 1] is Ok);
    }
    assert(flat_records(records, flats) =~= Seq::new(
        flats.len(),
        |i: int| (records[i].0, flats[i]->Ok_0),
    ));
}

/// Every record of a request that is not refused as a whole is accounted for: it waits under its
/// stream, or it has an item of its own behind those that the scan made.
pub proof fn law_every_record_waits_or_is_answered(
    scan: ScanView,
    records: Seq<RecordView>,
    reasons: ReasonsView,
)
    requires
        !records.contains(RecordView::ParseError),
    ensures
        ready(records) + refused(records) == records.len(),
        staged(scan, records, reasons).response.items.len() == scan.response.items.len() + refused(
            records,
        ),
        staged(scan, records, reasons).response.errors == (scan.response.errors || refused(records)
            > 0),
        forall|i: int|
            0 <= i < records.len() ==> (#[trigger] records[i] matches RecordView::Ready {
                val,
                stream_idx,
                timestamp,
            } ==> {
                let pending = staged(scan, records, reasons).pending;
                let name = scan.streams[stream_idx].0;
                &&& pending.contains_key(name)
                &&& pending[name].contains((timestamp, val))
            }),
{
    law_refusals_are_answered(scan.response, records, scan.streams, reasons);
    assert forall|i: int| 0 <= i < records.len() implies (#[trigger] records[i] matches RecordView::Ready {
        val,
        stream_idx,
        timestamp,
    } ==> {
        let pending = staged(scan, records, reasons).pending;
        let name = scan.streams[stream_idx].0;
        &&& pending.contains_key(name)
        &&& pending[name].contains((timestamp, val))
    }) by {
        law_ready_records_are_kept(records, scan.streams, i);
    }
}

/// A stream whose records could not be handed on is answered by one item behind the others, under
/// the action, without a document id and without a record, that tells the failure; and the response
/// has its mark of errors.
pub proof fn law_failed_streams_are_answered(
    response: ResponseView,
    stream_name: Seq<char>,
    action: Seq<char>,
    err_type: Seq<char>,
    reason: Seq<char>,
)
    ensures
        ({
            let after = with_stream_failure(response, stream_name, action, err_type, reason);
            &&& after.errors
            &&& after.took == response.took
            &&& after.items == response.items.push(
                failure_entry(stream_name, action, err_type, reason),
            )
        }),
{
}

/// The item that tells of a stream, or of a record of it, that could not be handed on.
pub open spec fn failure_entry(
    stream_name: Seq<char>,
    action: Seq<char>,
    err_type: Seq<char>,
    reason: Seq<char>,
) -> Map<Seq<char>, ItemView> {
    Map::<Seq<char>, ItemView>::empty().insert(
        if action.len() == 0 {
            "index"@
        } else {
            action
        },
        ItemView {
            index: stream_name,
            id: Seq::empty(),
            status: 422,
            error: Some(ErrorView { err_type, index: stream_name, reason, shard: "0"@ }),
            original_record: None,
            stream_name,
        },
    )
}

/// The items of a pipeline come behind those that are there, list by list, and change nothing else;
/// a pipeline that failed is answered as such.
pub proof fn law_pipelines_are_answered(
    response: ResponseView,
    stream_name: Seq<char>,
    action: Seq<char>,
    answers: Seq<Seq<Map<Seq<char>, ItemView>>>,
    more: Seq<Map<Seq<char>, ItemView>>,
)
    ensures
        after_pipeline(
            response,
            stream_name,
            action,
            Some(Seq::<Seq<Map<Seq<char>, ItemView>>>::empty()),
        ) == response,
        after_pipeline(response, stream_name, action, Some(answers.push(more))).items
            == after_pipeline(response, stream_name, action, Some(answers)).items + more,
        after_pipeline(response, stream_name, action, Some(answers)).errors == response.errors,
        after_pipeline(response, stream_name, action, Some(answers)).took == response.took,
        after_pipeline(response, stream_name, action, None).errors,
        after_pipeline(response, stream_name, action, None).items == response.items.push(
            failure_entry(
                stream_name,
                action,
                "pipeline_execution_failed"@,
                "pipeline_execution_failed"@,
            ),
        ),
{
    answers.lemma_flatten_push(more);
    let none = Seq::<Seq<Map<Seq<char>, ItemView>>>::empty();
    assert(response.items + none.flatten() =~= response.items);
    assert(response.items + answers.push(more).flatten() =~= response.items + answers.flatten()
        + more);
}

/// How many of the first records could be flattened.
pub open spec fn flat_before(
    flats: Seq<Result<Map<Seq<char>, Json>, Seq<char>>>,
    i: int,
) -> int
    decreases i,
{
    if i <= 0 {
        0
    } else {
        flat_before(flats, i - 1) + if flats[i - 1] is Ok {
            1int
        } else {
            0
        }
    }
}

proof fn lemma_flat_taken(flats: Seq<Result<Map<Seq<char>, Json>, Seq<char>>>, n: int, i: int)
    requires
        0 <= i <= n <= flats.len(),
    ensures
        0 <= flat_before(flats, i) <= i,
        flat_before(flats.take(n), i) == flat_before(flats, i),
    decreases i,
{
    if i > 0 {
        lemma_flat_taken(flats, n, i - 1);
    }
}

/// Each record that could be flattened is left to write, flattened and at its own time, behind those
/// before it that could be; each other one is answered with the reason why it could not be, behind
/// those before it.
pub proof fn law_each_record_is_flattened_or_answered(
    response: ResponseView,
    stream_name: Seq<char>,
    action: Seq<char>,
    records: Seq<(i64, Map<Seq<char>, Json>)>,
    flats: Seq<Result<Map<Seq<char>, Json>, Seq<char>>>,
    i: int,
)
    requires
        0 <= i < flats.len() <= records.len(),
    ensures
        flat_records(records, flats).len() == flat_before(flats, flats.len() as int),
        after_flattening(response, stream_name, action, flats).items.len() == response.items.len()
            + flats.len() - flat_before(flats, flats.len() as int),
        match flats[i] {
            Ok(flat) => {
                let k = flat_before(flats, i);
                &&& 0 <= k < flat_records(records, flats).len()
                &&& flat_records(records, flats)[k] == (records[i].0, flat)
            },
            Err(reason) => {
                let at = response.items.len() + i - flat_before(flats, i);
                let after = after_flattening(response, stream_name, action, flats);
                &&& 0 <= at < after.items.len()
                &&& after.items[at] == failure_entry(
                    stream_name,
                    action,
                    "document_failed_transform"@,
                    reason,
                )
                &&& after.errors
            },
        },
    decreases flats.len(),
{
    let some = flats.drop_last();
    let n = some.len() as int;
    assert(some =~= flats.take(n));
    lemma_flat_taken(flats, n, n);
    lemma_flat_taken(flats, n, i);
    if n > 0 {
        if i < n {
            law_each_record_is_flattened_or_answered(
                response,
                stream_name,
                action,
                records,
                some,
                i,
            );
        } else {
            law_each_record_is_flattened_or_answered(
                response,
                stream_name,
                action,
                records,
                some,
                0,
            );
        }
    } else {
        assert(flat_records(records, some).len() == 0);
        assert(after_flattening(response, stream_name, action, some) == response);
    }
}

/// A record is flattened as the function may flatten it, and answered only where the function may
/// fail on it, with the reason that it gives.
pub proof fn law_records_are_flattened_by_the_function<F: Fn(Object) -> Result<Object, String>>(
    flatten: F,
    records: Seq<(i64, Map<Seq<char>, Json>)>,
    flats: Seq<Result<Map<Seq<char>, Json>, Seq<char>>>,
    i: int,
)
    requires
        flattened_by(flatten, records, flats),
        0 <= i < records.len(),
    ensures
        flats.len() == records.len(),
        match flats[i] {
            Ok(flat) => exists|given: Object, result: Object|
                given@ == records[i].1 && result@ == flat && #[trigger] flatten.ensures(
                    (given,),
                    Ok(result),
                ),
            Err(reason) => exists|given: Object, said: String|
                given@ == records[i].1 && said@ == reason && #[trigger] flatten.ensures(
                    (given,),
                    Err(said),
                ),
        },
{
    assert(flattens(flatten, records[i].1, flats[i]));
    let (given, result) = choose|given: Object, result: Result<Object, String>|
        given@ == records[i].1 && #[trigger] flatten.ensures((given,), result) && flats[i]
            == flat_view(result);
    match result {
        Ok(flat) => {
            assert(flatten.ensures((given,), Ok(flat)));
        },
        Err(said) => {
            assert(flatten.ensures((given,), Err(said)));
        },
    }
}

/// A request that was read holds, of each stream, the records that are ready for it, and of each
/// record that is refused an answer, in the order of the records and behind what the scan answered;
/// the blocked streams and the last action are those of the scan.
pub proof fn law_requests_keep_every_record(
    scan: ScanView,
    records: Seq<RecordView>,
    reasons: ReasonsView,
    name: Seq<char>,
    i: int,
)
    requires
        0 <= i < records.len(),
    ensures
        ({
            let request = staged(scan, records, reasons);
            &&& request.action == scan.action
            &&& request.skipped == scan.skipped
            &&& request.response.items.len() == scan.response.items.len() + refused_before(
                records,
                records.len() as int,
            )
            &&& request.response.items.take(scan.response.items.len() as int)
                == scan.response.items
            &&& request.pending.contains_key(name) <==> ready_before(
                records,
                scan.streams,
                name,
                records.len() as int,
            ) > 0
            &&& records[i] matches RecordView::Ready { val, stream_idx, timestamp } ==> (
            scan.streams[stream_idx].0 == name ==> {
                let k = ready_before(records, scan.streams, name, i);
                &&& 0 <= k < request.pending[name].len()
                &&& request.pending[name][k] == (timestamp, val)
            })
        }),
{
    law_refusals_are_answered(scan.response, records, scan.streams, reasons);
    law_refused_records_are_answered_in_order(
        scan.response,
        records,
        scan.streams,
        reasons,
        i,
    );
    law_ready_records_wait_in_order(records, scan.streams, name, i);
    law_ready_records_are_kept(records, scan.streams, i);
}

/// A request is refused exactly where a metadata line is no JSON or no object, or a data line is no
/// JSON object, and for that reason; what was answered before the first bad line stays answered, and
/// nothing behind it is.
pub proof fn law_requests_are_refused_for_bad_lines(
    outcome: ScanOutcome,
    records: Seq<RecordView>,
    reasons: ReasonsView,
    result: Result<Ingestion, Refusal>,
)
    requires
        ingest_result(outcome, records, reasons, result),
    ensures
        result is Ok <==> outcome is Next && forall|i: int|
            0 <= i < records.len() ==> !(#[trigger] records[i] is ParseError),
        match (outcome, result) {
            (ScanOutcome::Next(scan), Ok(ingestion)) => ingestion@ == staged(
                scan,
                records,
                reasons,
            ),
            (ScanOutcome::Next(scan), Err(refusal)) => {
                &&& refusal.error matches IngestError::Message(message) && message@
                    == "Failed to parse JSON data line"@
                &&& views(refusal.skipped@) == scan.skipped
                &&& exists|k: int|
                    0 <= k < records.len() && #[trigger] records[k] is ParseError && (forall|i: int|
                        0 <= i < k ==> !(#[trigger] records[i] is ParseError))
                        && refusal.response@.items.len() == scan.response.items.len()
                        + refused_before(records, k)
                &&& refusal.response@.items.take(scan.response.items.len() as int)
                    == scan.response.items
            },
            (ScanOutcome::NotJson(scan, error), Err(refusal)) => {
                &&& refusal.error == IngestError::NotJson(error)
                &&& refusal.response@ == scan.response
                &&& views(refusal.skipped@) == scan.skipped
            },
            (ScanOutcome::NotObject(scan), Err(refusal)) => {
                &&& refusal.error == IngestError::NotObject
                &&& refusal.response@ == scan.response
                &&& views(refusal.skipped@) == scan.skipped
            },
            _ => false,
        },
{
    if let ScanOutcome::Next(scan) = outcome {
        if records.contains(RecordView::ParseError) {
            let refusal = result->Err_0;
            let k = choose|k: int| #[trigger]
                stops_at(records, k) && refusal.response@ == with_refusals(
                    scan.response,
                    records.take(k),
                    scan.streams,
                    reasons,
                );
            let some = records.take(k);
            law_refusals_are_answered(scan.response, some, scan.streams, reasons);
            lemma_refused_counted(records, k);
            assert forall|i: int| 0 <= i < k implies !(#[trigger] records[i] is ParseError) by {
                if records[i] is ParseError {
                    assert(some[i] == RecordView::ParseError);
                }
            }
            assert(records[k] is ParseError);
        } else {
            assert forall|i: int| 0 <= i < records.len() implies !(#[trigger] records[i]
                is ParseError) by {
                if records[i] is ParseError {
                    assert(records[i] == RecordView::ParseError);
                }
            }
        }
    }
}

proof fn lemma_refused_counted(records: Seq<RecordView>, k: int)
    requires
        0 <= k <= records.len(),
    ensures
        refused(records.take(k)) == refused_before(records, k),
    decreases k,
{
    if k > 0 {
        lemma_refused_counted(records, k - 1);
        assert(records.take(k).drop_last() =~= records.take(k - 1));
    }
}

/// The records of a request are those that the data lines of its body are read into, one for each
/// line and in their order.
pub proof fn law_requests_read_their_data_lines<
    P: Fn(&JsonValue) -> Option<(i64, bool)>,
    N: Fn() -> i64,
>(
    parse_timestamp: P,
    now_micros: N,
    body: Seq<u8>,
    scan: ScanView,
    window: TimeWindow,
    records: Seq<RecordView>,
    i: int,
)
    requires
        body_records(
            parse_timestamp,
            now_micros,
            body,
            ScanOutcome::Next(scan),
            window,
            records,
        ),
    ensures
        records.len() == scan.data_lines.len(),
        0 <= i < records.len() ==> record_of(
            parse_timestamp,
            now_micros,
            body,
            scan.data_lines[i],
            window,
            records[i],
        ),
{
    law_each_line_is_read(
        parse_timestamp,
        now_micros,
        body,
        scan.data_lines,
        window,
        records,
        i,
    );
}

/// Records are left to write exactly where there are any, and then all of them are.
pub proof fn law_all_flat_records_are_left(
    left: Option<Vec<(i64, Object)>>,
    records: Seq<(i64, Map<Seq<char>, Json>)>,
    i: int,
)
    requires
        left_to_write(left, records),
    ensures
        left is None <==> records.len() == 0,
        left matches Some(left) ==> left@.len() == records.len() && (0 <= i < records.len() ==> (
        left@[i].0 == records[i].0 && left@[i].1@ == records[i].1)),
{
    if let Some(left) = left {
        assert(records_view(left@).len() == left@.len());
        if 0 <= i < records.len() {
            assert(records_view(left@)[i] == records[i]);
        }
    }
}

/// A stream that was written leaves the response as the writer filled it; one that could not be
/// written leaves one item more behind what the writer answered, and the mark of errors. Nothing
/// that the writer answered is lost.
pub proof fn law_writing_keeps_the_answers(
    response: ResponseView,
    stream_name: Seq<char>,
    action: Seq<char>,
    filled: ResponseView,
    successful: int,
    failed: int,
    error: Seq<char>,
)
    ensures
        after_writing(response, stream_name, action, StatusView::Bulk(filled), true) == filled,
        after_writing(response, stream_name, action, StatusView::Bulk(filled), false).errors,
        after_writing(response, stream_name, action, StatusView::Bulk(filled), false).items
            == filled.items.push(
            failure_entry(
                stream_name,
                action,
                "pipeline_execution_failed"@,
                "pipeline_execution_failed"@,
            ),
        ),
        after_writing(
            response,
            stream_name,
            action,
            StatusView::Record { successful, failed, error },
            true,
        ) == response,
        after_writing(
            response,
            stream_name,
            action,
            StatusView::Record { successful, failed, error },
            false,
        ) == after_writing(response, stream_name, action, StatusView::Bulk(response), false),
{
}

} // verus!
