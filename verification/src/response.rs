//! The answer to a bulk request: one item for each record, and how a record's outcome becomes
//! one.

use crate::dict::Dict;
use crate::json::{Json, JsonValue};
use crate::metadata::INDEX;
use crate::text::option_view;
use vstd::prelude::*;

verus! {

/// A record could not be brought into the form in which it is stored.
pub const TRANSFORM_FAILED: &'static str = "document_failed_transform";

/// A record's timestamp could not be read, or lies outside the times that are taken in.
pub const TS_PARSE_FAILED: &'static str = "timestamp_parsing_failed";

/// A record does not fit the schema of its stream.
pub const SCHEMA_CONFORMANCE_FAILED: &'static str = "schema_conformance_failed";

/// The records of a stream could not be handed on.
pub const PIPELINE_EXEC_FAILED: &'static str = "pipeline_execution_failed";

/// The shard that every error names.
pub const SHARD: &'static str = "0";

/// The status of an item whose record was taken in.
pub const STATUS_CREATED: i64 = 200;

/// The status of an item whose record was refused.
pub const STATUS_FAILED: i64 = 422;

/// Why a record was refused.
#[derive(Debug, PartialEq)]
pub struct BulkResponseError {
    pub err_type: String,
    pub index: String,
    pub reason: String,
    pub shard: String,
}

/// The outcome of one record.
#[derive(Debug, PartialEq)]
pub struct BulkResponseItem {
    pub _index: String,
    pub _id: String,
    pub status: i64,
    pub error: Option<BulkResponseError>,
    pub original_record: Option<JsonValue>,
    pub stream_name: String,
}

/// The answer to a bulk request. Each item is a map from the action that was asked for to the
/// outcome of the record.
#[derive(Debug, PartialEq)]
pub struct BulkResponse {
    pub took: u128,
    pub errors: bool,
    pub items: Vec<Dict<BulkResponseItem>>,
}

/// What a `BulkResponseError` says.
pub struct ErrorView {
    pub err_type: Seq<char>,
    pub index: Seq<char>,
    pub reason: Seq<char>,
    pub shard: Seq<char>,
}

/// What a `BulkResponseItem` says.
pub struct ItemView {
    pub index: Seq<char>,
    pub id: Seq<char>,
    pub status: i64,
    pub error: Option<ErrorView>,
    pub original_record: Option<Json>,
    pub stream_name: Seq<char>,
}

/// What a `BulkResponse` says.
pub struct ResponseView {
    pub took: u128,
    pub errors: bool,
    pub items: Seq<Map<Seq<char>, ItemView>>,
}

impl View for BulkResponseError {
    type V = ErrorView;

    open spec fn view(&self) -> ErrorView {
        ErrorView {
            err_type: self.err_type@,
            index: self.index@,
            reason: self.reason@,
            shard: self.shard@,
        }
    }
}

/// What an optional value is.
pub open spec fn option_json(value: Option<JsonValue>) -> Option<Json> {
    match value {
        Some(value) => Some(value@),
        None => None,
    }
}

impl View for BulkResponseItem {
    type V = ItemView;

    open spec fn view(&self) -> ItemView {
        ItemView {
            index: self._index@,
            id: self._id@,
            status: self.status,
            error: match self.error {
                Some(error) => Some(error@),
                None => None,
            },
            original_record: option_json(self.original_record),
            stream_name: self.stream_name@,
        }
    }
}

/// What an item of a response says under each action.
pub open spec fn entry_view(entry: Dict<BulkResponseItem>) -> Map<Seq<char>, ItemView> {
    entry@.map_values(|item: BulkResponseItem| item@)
}

/// What a list of items says.
pub open spec fn entries_view(entries: Seq<Dict<BulkResponseItem>>) -> Seq<
    Map<Seq<char>, ItemView>,
> {
    entries.map_values(|entry: Dict<BulkResponseItem>| entry_view(entry))
}

impl View for BulkResponse {
    type V = ResponseView;

    open spec fn view(&self) -> ResponseView {
        ResponseView { took: self.took, errors: self.errors, items: entries_view(self.items@) }
    }
}

impl ResponseView {
    /// The response with one item more, under one action.
    pub open spec fn with_item(self, action: Seq<char>, item: ItemView) -> ResponseView {
        ResponseView {
            items: self.items.push(Map::<Seq<char>, ItemView>::empty().insert(action, item)),
            ..self
        }
    }

    /// The response with its mark of errors set.
    pub open spec fn with_errors(self) -> ResponseView {
        ResponseView { errors: true, ..self }
    }
}

/// The item of a record that was taken in. It does not hold the record.
pub open spec fn created_item(stream_name: Seq<char>, doc_id: Seq<char>) -> ItemView {
    ItemView {
        index: stream_name,
        id: doc_id,
        status: STATUS_CREATED,
        error: None,
        original_record: None,
        stream_name,
    }
}

/// The item of a record that was refused.
pub open spec fn failed_item(
    stream_name: Seq<char>,
    doc_id: Seq<char>,
    err_type: Seq<char>,
    reason: Seq<char>,
    value: Option<Json>,
) -> ItemView {
    ItemView {
        index: stream_name,
        id: doc_id,
        status: STATUS_FAILED,
        error: Some(ErrorView { err_type, index: stream_name, reason, shard: SHARD@ }),
        original_record: value,
        stream_name,
    }
}

/// A text, or none where there is no text.
pub open spec fn or_empty(text: Option<Seq<char>>) -> Seq<char> {
    match text {
        Some(text) => text,
        None => Seq::empty(),
    }
}

/// The action under which an outcome is listed: `index` where none was asked for.
pub open spec fn listed_action(action: Seq<char>) -> Seq<char> {
    if action.len() == 0 {
        INDEX@
    } else {
        action
    }
}

/// A response with the outcome of one more record. `failure` is the kind of failure and its
/// reason. Where only errors are answered, a success leaves the response as it is.
pub open spec fn with_status(
    response: ResponseView,
    stream_name: Seq<char>,
    doc_id: Option<Seq<char>>,
    action: Seq<char>,
    value: Option<Json>,
    failure: Option<(Seq<char>, Seq<char>)>,
    errors_only: bool,
) -> ResponseView {
    match failure {
        Some((err_type, reason)) => response.with_item(
            listed_action(action),
            failed_item(stream_name, or_empty(doc_id), err_type, reason, value),
        ),
        None => if errors_only {
            response
        } else {
            response.with_item(listed_action(action), created_item(stream_name, or_empty(doc_id)))
        },
    }
}

impl BulkResponseError {
    /// An error of a kind, on a stream, for a reason, on a shard.
    pub fn new(err_type: String, index: String, reason: String, shard: String) -> (result: Self)
        ensures
            result@ == (ErrorView {
                err_type: err_type@,
                index: index@,
                reason: reason@,
                shard: shard@,
            }),
    {
        BulkResponseError { err_type, index, reason, shard }
    }
}

impl BulkResponseItem {
    /// The outcome of a record that was taken in. The record itself is dropped.
    pub fn new(
        index: String,
        doc_id: String,
        _value: Option<JsonValue>,
        stream_name: String,
    ) -> (result: Self)
        ensures
            result@ == (ItemView {
                index: index@,
                id: doc_id@,
                status: STATUS_CREATED,
                error: None,
                original_record: None,
                stream_name: stream_name@,
            }),
    {
        BulkResponseItem {
            _index: index,
            _id: doc_id,
            status: STATUS_CREATED,
            error: None,
            original_record: None,
            stream_name,
        }
    }

    /// The outcome of a record that was refused, which keeps the record.
    pub fn new_failed(
        index: String,
        doc_id: String,
        error: BulkResponseError,
        value: Option<JsonValue>,
        stream_name: String,
    ) -> (result: Self)
        ensures
            result@ == (ItemView {
                index: index@,
                id: doc_id@,
                status: STATUS_FAILED,
                error: Some(error@),
                original_record: option_json(value),
                stream_name: stream_name@,
            }),
    {
        BulkResponseItem {
            _index: index,
            _id: doc_id,
            status: STATUS_FAILED,
            error: Some(error),
            original_record: value,
            stream_name,
        }
    }
}

impl BulkResponse {
    /// The response to a request of which nothing has been read yet.
    pub fn new() -> (result: Self)
        ensures
            result@ == (ResponseView { took: 0, errors: false, items: Seq::empty() }),
    {
        let result = BulkResponse { took: 0, errors: false, items: Vec::new() };
        assert(result@.items =~= Seq::empty());
        result
    }

    /// Adds an item that holds one outcome under one action.
    pub fn push_item(&mut self, action: String, item: BulkResponseItem)
        ensures
            final(self)@ == old(self)@.with_item(action@, item@),
    {
        let mut entry: Dict<BulkResponseItem> = Dict::new();
        entry.insert(action, item);
        assert(entry_view(entry) =~= Map::<Seq<char>, ItemView>::empty().insert(action@, item@));
        self.items.push(entry);
        assert(self@.items =~= old(self)@.items.push(entry_view(entry)));
    }
}

/// The failure that a kind and a reason make.
pub open spec fn failure_of(
    failure_type: Option<String>,
    failure_reason: Option<String>,
) -> Option<(Seq<char>, Seq<char>)> {
    match failure_type {
        Some(failure_type) => Some((failure_type@, or_empty(option_view(failure_reason)))),
        None => None,
    }
}

/// Adds the outcome of a record to a response. A failure comes with its reason. The mark of
/// errors is the caller's to set. `errors_only` says that successes are not answered.
pub fn add_record_status(
    stream_name: String,
    doc_id: Option<String>,
    action: String,
    value: Option<JsonValue>,
    bulk_res: &mut BulkResponse,
    failure_type: Option<String>,
    failure_reason: Option<String>,
    errors_only: bool,
)
    requires
        failure_type is Some ==> failure_reason is Some,
    ensures
        final(bulk_res)@ == with_status(
            old(bulk_res)@,
            stream_name@,
            option_view(doc_id),
            action@,
            option_json(value),
            failure_of(failure_type, failure_reason),
            errors_only,
        ),
{
    if failure_type.is_none() && errors_only {
        return ;
    }
    let action = if action.as_str().is_empty() {
        INDEX.to_string()
    } else {
        action
    };
    let doc_id = match doc_id {
        Some(doc_id) => doc_id,
        None => String::new(),
    };
    match failure_type {
        Some(failure_type) => {
            let reason = failure_reason.unwrap();
            let bulk_err = BulkResponseError::new(
                failure_type,
                stream_name.clone(),
                reason,
                SHARD.to_string(),
            );
            let item = BulkResponseItem::new_failed(
                stream_name.clone(),
                doc_id,
                bulk_err,
                value,
                stream_name,
            );
            bulk_res.push_item(action, item);
        },
        None => {
            let item = BulkResponseItem::new(stream_name.clone(), doc_id, value, stream_name);
            bulk_res.push_item(action, item);
        },
    }
}

/// The outcome of a record adds one item behind those that are there, or none where it is a
/// success and only errors are answered. Nothing else changes, the mark of errors included.
pub proof fn law_status_adds_one_item(
    response: ResponseView,
    stream_name: Seq<char>,
    doc_id: Option<Seq<char>>,
    action: Seq<char>,
    value: Option<Json>,
    failure: Option<(Seq<char>, Seq<char>)>,
    errors_only: bool,
)
    ensures
        ({
            let after = with_status(
                response,
                stream_name,
                doc_id,
                action,
                value,
                failure,
                errors_only,
            );
            &&& after.items.len() == response.items.len() + if failure is None && errors_only {
                0nat
            } else {
                1
            }
            &&& after.items.take(response.items.len() as int) == response.items
            &&& after.errors == response.errors
            &&& after.took == response.took
        }),
{
    let after = with_status(response, stream_name, doc_id, action, value, failure, errors_only);
    assert(after.items.take(response.items.len() as int) =~= response.items);
}

/// The status code with which a bulk request is counted.
pub open spec fn status_code_of(response: ResponseView) -> Seq<char> {
    if response.errors {
        "500"@
    } else {
        "200"@
    }
}

/// The status code with which a bulk request is counted.
pub fn status_code(bulk_res: &BulkResponse) -> (result: &'static str)
    ensures
        result@ == status_code_of(bulk_res@),
{
    if bulk_res.errors {
        "500"
    } else {
        "200"
    }
}

/// How many records of a request were taken in and how many were refused, with the reason of the
/// last refusal.
#[derive(Debug, PartialEq)]
pub struct RecordStatus {
    pub successful: u32,
    pub failed: u32,
    pub error: String,
}

/// Where the outcomes of records are noted: as counts, or one by one as a bulk response.
#[derive(Debug, PartialEq)]
pub enum IngestionStatus {
    Record(RecordStatus),
    Bulk(BulkResponse),
}

/// What an `IngestionStatus` says.
pub enum StatusView {
    Record { successful: int, failed: int, error: Seq<char> },
    Bulk(ResponseView),
}

impl View for IngestionStatus {
    type V = StatusView;

    open spec fn view(&self) -> StatusView {
        match self {
            IngestionStatus::Record(status) => StatusView::Record {
                successful: status.successful as int,
                failed: status.failed as int,
                error: status.error@,
            },
            IngestionStatus::Bulk(response) => StatusView::Bulk(response@),
        }
    }
}

/// Whether records that failed are logged: it is configured so, and the organization that holds
/// the settings has it turned on.
pub fn ingestion_log_enabled(configured: bool, turned_on: Option<bool>) -> (result: bool)
    ensures
        result == (configured && turned_on == Some(true)),
{
    configured && match turned_on {
        Some(on) => on,
        None => false,
    }
}

/// What is logged of a record that failed.
pub open spec fn failure_line(record: Seq<char>, error: Seq<char>) -> Seq<char> {
    "failed to process record with error "@ + error + " : "@ + record + " "@
}

/// The line to log of a record that failed, where such lines are logged. `record` is the record
/// as it is printed.
pub fn log_failed_record(enabled: bool, record: &str, error: &str) -> (result: Option<String>)
    ensures
        match result {
            Some(line) => enabled && line@ == failure_line(record@, error@),
            None => !enabled,
        },
{
    if !enabled {
        return None;
    }
    let mut line = "failed to process record with error ".to_string();
    line.append(error);
    line.append(" : ");
    line.append(record);
    line.append(" ");
    Some(line)
}

/// The outcome of a record is answered under the action that was asked for, or under `index` where
/// none was: by an item that names the stream and the document id, without an error and without the
/// record where it was taken in, else with the kind and the reason of the failure and the record.
pub proof fn law_outcomes_become_items(
    response: ResponseView,
    stream_name: Seq<char>,
    doc_id: Option<Seq<char>>,
    action: Seq<char>,
    value: Option<Json>,
    failure: Option<(Seq<char>, Seq<char>)>,
    errors_only: bool,
)
    requires
        failure is Some || !errors_only,
    ensures
        ({
            let after = with_status(
                response,
                stream_name,
                doc_id,
                action,
                value,
                failure,
                errors_only,
            );
            let under = if action == ""@ {
                "index"@
            } else {
                action
            };
            let item = after.items.last()[under];
            &&& after.items.len() == response.items.len() + 1
            &&& after.items.drop_last() == response.items
            &&& after.items.last().dom() == Set::<Seq<char>>::empty().insert(under)
            &&& item.index == stream_name
            &&& item.stream_name == stream_name
            &&& item.id == (match doc_id {
                Some(id) => id,
                None => ""@,
            })
            &&& match failure {
                Some((kind, reason)) => {
                    &&& item.status == 422
                    &&& item.error == Some(
                        ErrorView { err_type: kind, index: stream_name, reason, shard: "0"@ },
                    )
                    &&& item.original_record == value
                },
                None => {
                    &&& item.status == 200
                    &&& item.error is None
                    &&& item.original_record is None
                },
            }
        }),
{
    reveal_strlit("");
    assert(""@ =~= Seq::empty());
    if action.len() == 0 {
        assert(action =~= ""@);
    }
    let after = with_status(response, stream_name, doc_id, action, value, failure, errors_only);
    assert(after.items.drop_last() =~= response.items);
    assert(after.items.last().dom() =~= Set::<Seq<char>>::empty().insert(
        if action == ""@ {
            "index"@
        } else {
            action
        },
    ));
}

/// A request is counted as failed exactly where its response has the mark of errors.
pub proof fn law_status_code_tells_errors(response: ResponseView)
    ensures
        status_code_of(response) == "500"@ <==> response.errors,
        status_code_of(response) == "200"@ <==> !response.errors,
        status_code_of(response.with_errors()) == "500"@,
        response.with_errors().items == response.items,
{
    reveal_strlit("500");
    reveal_strlit("200");
    assert("500"@[0] == '5');
    assert("200"@[0] == '2');
}

/// What items, responses and statuses say leaves nothing out.
pub proof fn law_responses_are_seen_whole(
    item: BulkResponseItem,
    error: BulkResponseError,
    response: BulkResponse,
    counts: RecordStatus,
    entry: Dict<BulkResponseItem>,
    i: int,
)
    ensures
        item@.index == item._index@,
        item@.id == item._id@,
        item@.status == item.status,
        item@.stream_name == item.stream_name@,
        item@.error is Some <==> item.error is Some,
        item.error == Some(error) ==> item@.error == Some(error@),
        item@.original_record is Some <==> item.original_record is Some,
        item.original_record matches Some(value) ==> item@.original_record == Some(value@),
        error@.err_type == error.err_type@,
        error@.index == error.index@,
        error@.reason == error.reason@,
        error@.shard == error.shard@,
        entry_view(entry).dom() == entry@.dom(),
        forall|key: Seq<char>| #[trigger]
            entry@.contains_key(key) ==> entry_view(entry)[key] == entry@[key]@,
        response@.took == response.took,
        response@.errors == response.errors,
        response@.items.len() == response.items@.len(),
        0 <= i < response.items@.len() ==> response@.items[i] == entry_view(response.items@[i]),
        IngestionStatus::Bulk(response)@ == StatusView::Bulk(response@),
        IngestionStatus::Record(counts)@ == (StatusView::Record {
            successful: counts.successful as int,
            failed: counts.failed as int,
            error: counts.error@,
        }),
{
    assert(entry_view(entry).dom() =~= entry@.dom());
}

} // verus!
