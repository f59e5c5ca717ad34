//! Writing the records of a stream: which of them fit the stream's schema, how their outcomes are
//! noted, and how they are sorted into the buffers that are written.

use crate::dict::{list_at, Dict};
use crate::json::{Json, JsonValue, Object};
use crate::metadata::ID_KEY;
use crate::records::records_view;
use crate::response::{
    add_record_status, with_status, IngestionStatus, StatusView, SCHEMA_CONFORMANCE_FAILED,
};
use crate::schema::{
    cast_delta, cast_outcome, cast_run, cast_start, delta_view, fields_to_cast, fields_view,
    finite_fields, float_reading, law_finite_fields_are_cast, marked, names_differ, reading_of, rendered,
    try_cast_to_type, CastRun, Field, FieldView, FloatReading, TypeClass,
};
use crate::text::{law_prefix_is_in_front, occurs_at, option_view, starts_with, views};
use vstd::prelude::*;

verus! {

/// The microseconds of an hour.
pub const HOUR_MICROS: i64 = 3_600_000_000;

/// The microseconds of a day.
pub const DAY_MICROS: i64 = 86_400_000_000;

/// The span of time that the files of a stream hold.
#[derive(Clone, Copy, PartialEq, Eq, Debug, Structural)]
pub enum PartitionTimeLevel {
    Unset,
    Hourly,
    Daily,
}

/// The span of a bucket: a day where files hold days, else an hour.
pub open spec fn bucket_span(level: PartitionTimeLevel) -> i64 {
    if level == PartitionTimeLevel::Daily {
        DAY_MICROS
    } else {
        HOUR_MICROS
    }
}

/// The bucket of a time: how many whole spans lie between it and zero, counted towards zero.
pub open spec fn bucket_of(timestamp: i64, level: PartitionTimeLevel) -> int {
    let distance = if timestamp >= 0 {
        timestamp as int
    } else {
        -timestamp
    };
    let spans = if level == PartitionTimeLevel::Daily {
        distance / DAY_MICROS as int
    } else {
        distance / HOUR_MICROS as int
    };
    if timestamp >= 0 {
        spans
    } else {
        -spans
    }
}

/// The bucket of a time.
pub fn bucket(timestamp: i64, level: PartitionTimeLevel) -> (result: i64)
    ensures
        result == bucket_of(timestamp, level),
{
    if matches!(level, PartitionTimeLevel::Daily) {
        timestamp / DAY_MICROS
    } else {
        timestamp / HOUR_MICROS
    }
}

/// How the records of a stream are written.
#[derive(Debug, PartialEq)]
pub struct WriteSettings {
    stream_name: String,
    partition_keys: Vec<String>,
    time_level: PartitionTimeLevel,
    delta: Option<Vec<Field>>,
    errors_only: bool,
    distinct: bool,
    distinct_fields: Vec<String>,
    has_alerts: bool,
}

/// What `WriteSettings` says: the stream, the fields by which its records are partitioned, the
/// span that its files hold, the fields to which records are cast, whether only errors are
/// answered, whether distinct values are gathered, of which fields, and whether the stream has
/// alerts.
pub struct WriteView {
    pub stream_name: Seq<char>,
    pub partition_keys: Seq<Seq<char>>,
    pub time_level: PartitionTimeLevel,
    pub delta: Option<Seq<FieldView>>,
    pub errors_only: bool,
    pub distinct: bool,
    pub distinct_fields: Seq<Seq<char>>,
    pub has_alerts: bool,
}

impl WriteView {
    /// Records are partitioned by their fields.
    pub open spec fn partitioned(self) -> bool {
        self.partition_keys.len() > 0
    }
}

impl View for WriteSettings {
    type V = WriteView;

    closed spec fn view(&self) -> WriteView {
        WriteView {
            stream_name: self.stream_name@,
            partition_keys: views(self.partition_keys@),
            time_level: self.time_level,
            delta: delta_view(self.delta),
            errors_only: self.errors_only,
            distinct: self.distinct,
            distinct_fields: views(self.distinct_fields@),
            has_alerts: self.has_alerts,
        }
    }
}

/// What is known of a stream before its records are written.
#[derive(Debug, PartialEq)]
pub struct StreamFacts {
    /// Whether the stream has partition keys in its schema.
    pub has_partition_keys: bool,
    /// The partition keys of its settings.
    pub partition_keys: Vec<String>,
    /// The span of its settings.
    pub stream_level: PartitionTimeLevel,
    /// The span of files where the stream does not set its own.
    pub default_level: PartitionTimeLevel,
    /// The fields whose types changed.
    pub types_delta: Option<Vec<Field>>,
    /// Whether the schema itself has changed.
    pub is_schema_changed: bool,
    /// Whether distinct values are gathered.
    pub enable_distinct_fields: bool,
    /// Whether the stream has alerts.
    pub has_alerts: bool,
}

/// How the records of a stream are written, by what is known of it.
pub open spec fn settings_for(
    stream_name: Seq<char>,
    facts: StreamFacts,
    default_distinct_fields: Seq<Seq<char>>,
    stream_distinct_fields: Seq<Seq<char>>,
    errors_only: bool,
) -> WriteView {
    WriteView {
        stream_name,
        partition_keys: if facts.has_partition_keys {
            views(facts.partition_keys@)
        } else {
            Seq::empty()
        },
        time_level: if facts.has_partition_keys {
            facts.stream_level
        } else {
            facts.default_level
        },
        delta: fields_to_cast(delta_view(facts.types_delta), facts.is_schema_changed),
        errors_only,
        distinct: facts.enable_distinct_fields,
        distinct_fields: default_distinct_fields + stream_distinct_fields,
        has_alerts: facts.has_alerts,
    }
}

fn append_texts(list: &mut Vec<String>, more: &Vec<String>)
    ensures
        views(final(list)@) == views(old(list)@) + views(more@),
{
    let mut i: usize = 0;
    assert(views(list@) =~= views(old(list)@) + views(more@).take(0));
    while i < more.len()
        invariant
            i <= more@.len(),
            views(list@) == views(old(list)@) + views(more@).take(i as int),
        decreases more.len() - i,
    {
        let ghost before = list@;
        let text = more[i].clone();
        list.push(text);
        proof {
            assert(views(list@) =~= views(before).push(text@));
            assert(views(more@).take(i + 1) =~= views(more@).take(i as int).push(text@));
            assert(views(list@) =~= views(old(list)@) + views(more@).take(i + 1));
        }
        i += 1;
    }
    assert(views(more@).take(i as int) =~= views(more@));
}

impl WriteSettings {
    /// The settings for a stream. The stream's partition keys and its span count only where its
    /// schema has partition keys. Distinct values are those of the fields that are gathered for
    /// every stream, and of the stream's own.
    pub fn new(
        stream_name: &str,
        facts: StreamFacts,
        default_distinct_fields: &Vec<String>,
        stream_distinct_fields: &Vec<String>,
        errors_only: bool,
    ) -> (result: WriteSettings)
        ensures
            result@ == settings_for(
                stream_name@,
                facts,
                views(default_distinct_fields@),
                views(stream_distinct_fields@),
                errors_only,
            ),
    {
        let none: Vec<String> = Vec::new();
        assert(views(none@) =~= Seq::empty());
        let partition_keys = if facts.has_partition_keys {
            facts.partition_keys
        } else {
            none
        };
        let mut distinct_fields: Vec<String> = Vec::new();
        append_texts(&mut distinct_fields, default_distinct_fields);
        append_texts(&mut distinct_fields, stream_distinct_fields);
        assert(views(distinct_fields@) =~= views(default_distinct_fields@) + views(
            stream_distinct_fields@,
        ));
        WriteSettings {
            stream_name: stream_name.to_string(),
            partition_keys,
            time_level: if facts.has_partition_keys {
                facts.stream_level
            } else {
                facts.default_level
            },
            delta: cast_delta(facts.types_delta, facts.is_schema_changed),
            errors_only,
            distinct: facts.enable_distinct_fields,
            distinct_fields,
            has_alerts: facts.has_alerts,
        }
    }

    /// The fields by which records are partitioned.
    pub fn partition_keys(&self) -> (result: &Vec<String>)
        ensures
            views(result@) == self@.partition_keys,
    {
        &self.partition_keys
    }

    /// The span of time that the files of the stream hold.
    pub fn time_level(&self) -> (result: PartitionTimeLevel)
        ensures
            result == self@.time_level,
    {
        self.time_level
    }

    /// Whether the stream has alerts.
    pub fn has_alerts(&self) -> (result: bool)
        ensures
            result == self@.has_alerts,
    {
        self.has_alerts
    }
}

/// Some record has a document id, and successes are answered.
pub open spec fn ids_matter(
    records: Seq<(i64, Map<Seq<char>, Json>)>,
    settings: WriteView,
) -> bool {
    &&& !settings.errors_only
    &&& exists|i: int| 0 <= i < records.len() && (#[trigger] records[i]).1.contains_key(ID_KEY@)
}

/// The records need not be looked at one by one: they are neither partitioned by their fields
/// nor cast, their document ids do not matter, no distinct values are gathered, and the stream has
/// no alerts.
pub open spec fn all_alike(
    records: Seq<(i64, Map<Seq<char>, Json>)>,
    settings: WriteView,
) -> bool {
    &&& !settings.partitioned()
    &&& settings.delta is None
    &&& !ids_matter(records, settings)
    &&& !settings.distinct
    &&& !settings.has_alerts
}

/// All records go to one buffer at once: they need not be looked at one by one, and lie in the
/// bucket of the first.
pub open spec fn one_buffer(
    records: Seq<(i64, Map<Seq<char>, Json>)>,
    settings: WriteView,
) -> bool {
    &&& records.len() > 0
    &&& all_alike(records, settings)
    &&& forall|i: int|
        0 <= i < records.len() ==> bucket_of((#[trigger] records[i]).0, settings.time_level)
            == bucket_of(records[0].0, settings.time_level)
}

/// Whether document ids matter.
fn batch_has_doc_id(records: &Vec<(i64, Object)>, settings: &WriteSettings) -> (result: bool)
    ensures
        result == ids_matter(records_view(records@), settings@),
{
    if settings.errors_only {
        return false;
    }
    let ghost all = records_view(records@);
    let mut i: usize = 0;
    while i < records.len()
        invariant
            i <= records@.len(),
            !settings.errors_only,
            all == records_view(records@),
            forall|j: int| 0 <= j < i ==> !(#[trigger] all[j]).1.contains_key(ID_KEY@),
        decreases records.len() - i,
    {
        assert(all[i as int].1 == records@[i as int].1@);
        if records[i].1.contains_key(ID_KEY) {
            return true;
        }
        i += 1;
    }
    false
}

/// Whether all records go to one buffer at once.
pub fn takes_one_buffer(records: &Vec<(i64, Object)>, settings: &WriteSettings) -> (result: bool)
    ensures
        result == one_buffer(records_view(records@), settings@),
{
    let ghost all = records_view(records@);
    let has_doc_id = batch_has_doc_id(records, settings);
    let can_skip_loop = settings.partition_keys.len() == 0 && settings.delta.is_none()
        && !has_doc_id && !settings.distinct && !settings.has_alerts;
    if !can_skip_loop || records.len() == 0 {
        return false;
    }
    assert(all[0].0 == records@[0].0);
    let first_bucket = bucket(records[0].0, settings.time_level);
    let mut i: usize = 0;
    while i < records.len()
        invariant
            i <= records@.len(),
            records@.len() > 0,
            all == records_view(records@),
            first_bucket == bucket_of(all[0].0, settings@.time_level),
            forall|j: int|
                0 <= j < i ==> bucket_of((#[trigger] all[j]).0, settings@.time_level)
                    == bucket_of(all[0].0, settings@.time_level),
        decreases records.len() - i,
    {
        assert(all[i as int].0 == records@[i as int].0);
        if bucket(records[i].0, settings.time_level) != first_bucket {
            return false;
        }
        i += 1;
    }
    true
}

/// The document id of a record, where it matters.
pub open spec fn doc_id_of(record: Map<Seq<char>, Json>, matters: bool) -> Option<Seq<char>> {
    if matters && record.contains_key(ID_KEY@) {
        match record[ID_KEY@] {
            Json::String(id) => Some(id),
            _ => None,
        }
    } else {
        None
    }
}

/// The count of successes has room for so many records more.
pub open spec fn successes_fit(status: StatusView, records: nat) -> bool {
    match status {
        StatusView::Record { successful, .. } => successful + records <= u32::MAX,
        StatusView::Bulk(_) => true,
    }
}

/// Whether the count of successes has room for so many records more.
pub fn has_room(status: &IngestionStatus, records: usize) -> (result: bool)
    ensures
        result == successes_fit(status@, records as nat),
{
    match status {
        IngestionStatus::Record(counts) => records <= (u32::MAX - counts.successful) as usize,
        IngestionStatus::Bulk(_) => true,
    }
}

/// `run` is what the casting of a record to some fields may come to.
pub open spec fn cast_to_fields<F: Fn(&JsonValue) -> String>(
    render: F,
    fields: Seq<FieldView>,
    record: Map<Seq<char>, Json>,
    run: CastRun,
) -> bool {
    exists|texts: Seq<Seq<char>>| #[trigger]
        rendered(render, cast_start(record), fields, texts) && run == cast_run(
            cast_start(record),
            fields,
            texts,
        )
}

/// `run` is what the casting of a record may come to. `render` gives the text of a value that is
/// no string.
pub open spec fn cast_of<F: Fn(&JsonValue) -> String>(
    render: F,
    delta: Option<Seq<FieldView>>,
    record: Map<Seq<char>, Json>,
    run: CastRun,
) -> bool {
    match delta {
        Some(fields) => cast_to_fields(render, fields, record, run),
        None => run == cast_start(record),
    }
}

/// The document id of a record is a string, where it matters.
pub open spec fn id_is_string(record: Map<Seq<char>, Json>, matters: bool) -> bool {
    matters && record.contains_key(ID_KEY@) ==> record[ID_KEY@] is String
}

/// `run` is what the casting of a record may come to, and comes to its end, and the document id of
/// the record is a string where it matters.
pub open spec fn cast_at<F: Fn(&JsonValue) -> String>(
    render: F,
    settings: WriteView,
    record: Map<Seq<char>, Json>,
    matters: bool,
    run: CastRun,
) -> bool {
    cast_of(render, settings.delta, record, run) && run.finite && id_is_string(record, matters)
}

/// Each of `runs` is what the casting of its record may come to.
pub open spec fn cast_by<F: Fn(&JsonValue) -> String>(
    render: F,
    settings: WriteView,
    records: Seq<(i64, Map<Seq<char>, Json>)>,
    runs: Seq<CastRun>,
) -> bool {
    &&& runs.len() <= records.len()
    &&& forall|i: int|
        0 <= i < runs.len() ==> cast_at(
            render,
            settings,
            records[i].1,
            ids_matter(records, settings),
            #[trigger] runs[i],
        )
}

/// Why the records of a stream are admitted no further: a document id that matters is no string, a
/// casting came upon a number without a JSON form, or a count is full.
#[derive(Clone, Copy, PartialEq, Eq, Debug, Structural)]
pub enum AdmitStop {
    IdNotString,
    NotFinite,
    CountFull,
}

/// The count to which the outcome of a record is added has room for it.
pub open spec fn outcome_fits(status: StatusView, run: CastRun) -> bool {
    match status {
        StatusView::Record { successful, failed, .. } => if run.message.len() == 0 {
            successful < u32::MAX
        } else {
            failed < u32::MAX
        },
        StatusView::Bulk(_) => true,
    }
}

/// The record is one at which admission stops, for the reason.
pub open spec fn stops_for<F: Fn(&JsonValue) -> String>(
    render: F,
    settings: WriteView,
    record: Map<Seq<char>, Json>,
    matters: bool,
    status: StatusView,
    reason: AdmitStop,
) -> bool {
    match reason {
        AdmitStop::IdNotString => !id_is_string(record, matters),
        AdmitStop::NotFinite => id_is_string(record, matters) && exists|run: CastRun| #[trigger]
            cast_of(render, settings.delta, record, run) && !run.finite,
        AdmitStop::CountFull => id_is_string(record, matters) && exists|run: CastRun| #[trigger]
            cast_of(render, settings.delta, record, run) && run.finite && !outcome_fits(
                status,
                run,
            ),
    }
}

/// Admission stopped at the record behind those that were cast, for the reason.
pub open spec fn stopped_behind<F: Fn(&JsonValue) -> String>(
    render: F,
    settings: WriteView,
    records: Seq<(i64, Map<Seq<char>, Json>)>,
    status: StatusView,
    runs: Seq<CastRun>,
    reason: AdmitStop,
) -> bool {
    &&& runs.len() < records.len()
    &&& stops_for(
        render,
        settings,
        records[runs.len() as int].1,
        ids_matter(records, settings),
        status,
        reason,
    )
}

/// A status with the outcome of one more record: a success where nothing was said of its
/// values, else a failure that says it.
pub open spec fn note_outcome(
    status: StatusView,
    settings: WriteView,
    doc_id: Option<Seq<char>>,
    run: CastRun,
) -> StatusView {
    let taken = run.message.len() == 0;
    match status {
        StatusView::Record { successful, failed, error } => if taken {
            StatusView::Record { successful: successful + 1, failed, error }
        } else {
            StatusView::Record { successful, failed: failed + 1, error: run.message }
        },
        StatusView::Bulk(response) => if taken {
            StatusView::Bulk(
                with_status(
                    response,
                    settings.stream_name,
                    doc_id,
                    Seq::empty(),
                    None,
                    None,
                    settings.errors_only,
                ),
            )
        } else {
            StatusView::Bulk(
                with_status(
                    response.with_errors(),
                    settings.stream_name,
                    doc_id,
                    Seq::empty(),
                    Some(Json::Object(run.record)),
                    Some((SCHEMA_CONFORMANCE_FAILED@, run.message)),
                    settings.errors_only,
                ),
            )
        },
    }
}

/// A status with the outcomes of the records that were cast, in their order.
pub open spec fn note_outcomes(
    status: StatusView,
    settings: WriteView,
    records: Seq<(i64, Map<Seq<char>, Json>)>,
    ids_matter: bool,
    runs: Seq<CastRun>,
) -> StatusView
    decreases runs.len(),
{
    if runs.len() == 0 {
        status
    } else {
        note_outcome(
            note_outcomes(status, settings, records, ids_matter, runs.drop_last()),
            settings,
            doc_id_of(records[runs.len() - 1].1, ids_matter),
            runs.last(),
        )
    }
}

/// The records that were cast, as they are then.
pub open spec fn admitted(
    records: Seq<(i64, Map<Seq<char>, Json>)>,
    runs: Seq<CastRun>,
) -> Seq<(i64, Map<Seq<char>, Json>)>
    decreases runs.len(),
{
    if runs.len() == 0 {
        Seq::empty()
    } else {
        let before = admitted(records, runs.drop_last());
        if runs.last().message.len() == 0 {
            before.push((records[runs.len() - 1].0, runs.last().record))
        } else {
            before
        }
    }
}

/// The records that were refused, with what was said of them.
pub open spec fn turned_away(runs: Seq<CastRun>) -> Seq<(Map<Seq<char>, Json>, Seq<char>)>
    decreases runs.len(),
{
    if runs.len() == 0 {
        Seq::empty()
    } else {
        let before = turned_away(runs.drop_last());
        if runs.last().message.len() == 0 {
            before
        } else {
            before.push((runs.last().record, runs.last().message))
        }
    }
}

/// What a list of refused records says.
pub open spec fn refusals_view(refused: Seq<(Object, String)>) -> Seq<
    (Map<Seq<char>, Json>, Seq<char>),
> {
    refused.map_values(|record: (Object, String)| (record.0@, record.1@))
}

/// The records of a stream that fit its schema, and those that do not, with the reasons.
#[derive(Debug, PartialEq)]
pub struct Admission {
    pub admitted: Vec<(i64, Object)>,
    pub refused: Vec<(Object, String)>,
}

/// Notes a record that fits.
fn note_success(status: &mut IngestionStatus, settings: &WriteSettings, doc_id: Option<String>)
    requires
        successes_fit(old(status)@, 1),
    ensures
        forall|run: CastRun|
            run.message.len() == 0 ==> final(status)@ == #[trigger] note_outcome(
                old(status)@,
                settings@,
                option_view(doc_id),
                run,
            ),
{
    match status {
        IngestionStatus::Record(counts) => {
            counts.successful += 1;
        },
        IngestionStatus::Bulk(response) => {
            let action = String::new();
            assert(action@ =~= Seq::empty());
            add_record_status(
                settings.stream_name.clone(),
                doc_id,
                action,
                None,
                response,
                None,
                None,
                settings.errors_only,
            );
        },
    }
}

/// Notes a record that does not fit.
fn note_failure(
    status: &mut IngestionStatus,
    settings: &WriteSettings,
    doc_id: Option<String>,
    record: &Object,
    message: &String,
)
    requires
        old(status)@ matches StatusView::Record { failed, .. } ==> failed < u32::MAX,
        message@.len() > 0,
    ensures
        forall|run: CastRun|
            run.message == message@ && run.record == record@ ==> final(status)@
                == #[trigger] note_outcome(
                old(status)@,
                settings@,
                option_view(doc_id),
                run,
            ),
{
    match status {
        IngestionStatus::Record(counts) => {
            counts.failed += 1;
            counts.error = message.clone();
        },
        IngestionStatus::Bulk(response) => {
            response.errors = true;
            let action = String::new();
            assert(action@ =~= Seq::empty());
            add_record_status(
                settings.stream_name.clone(),
                doc_id,
                action,
                Some(JsonValue::Object(record.clone())),
                response,
                Some(SCHEMA_CONFORMANCE_FAILED.to_string()),
                Some(message.clone()),
                settings.errors_only,
            );
        },
    }
}

/// Casts a record to the fields of the settings, unless its casting comes upon a number without a
/// JSON form.
fn cast_record<F: Fn(&JsonValue) -> String>(
    record: &mut Object,
    settings: &WriteSettings,
    get_string_value: &F,
) -> (result: Option<Result<(), String>>)
    requires
        forall|x: &JsonValue| get_string_value.requires((x,)),
    ensures
        exists|run: CastRun| #[trigger]
            cast_of(*get_string_value, settings@.delta, old(record)@, run) && match result {
                Some(cast) => run.finite && cast_outcome(run, final(record)@, cast),
                None => !run.finite,
            },
{
    let ghost before = record@;
    match &settings.delta {
        Some(delta) => {
            let result = try_cast_to_type(record, delta.as_slice(), get_string_value);
            proof {
                let fields = fields_view(delta@);
                assert(settings@.delta == Some(fields));
                let texts = choose|texts: Seq<Seq<char>>| #[trigger]
                    rendered(*get_string_value, cast_start(before), fields, texts) && {
                        let run = cast_run(cast_start(before), fields, texts);
                        match result {
                            Some(cast) => run.finite && cast_outcome(run, record@, cast),
                            None => !run.finite && record@ == before,
                        }
                    };
                assert(cast_of(
                    *get_string_value,
                    settings@.delta,
                    before,
                    cast_run(cast_start(before), fields, texts),
                ));
            }
            result
        },
        None => {
            assert(cast_of(*get_string_value, settings@.delta, before, cast_start(before)));
            Some(Ok(()))
        },
    }
}

/// One more record was cast.
proof fn lemma_one_more_cast<F: Fn(&JsonValue) -> String>(
    render: F,
    settings: WriteView,
    records: Seq<(i64, Map<Seq<char>, Json>)>,
    runs: Seq<CastRun>,
    run: CastRun,
)
    requires
        cast_by(render, settings, records, runs),
        runs.len() < records.len(),
        cast_at(
            render,
            settings,
            records[runs.len() as int].1,
            ids_matter(records, settings),
            run,
        ),
    ensures
        cast_by(render, settings, records, runs.push(run)),
{
    let more = runs.push(run);
    assert forall|i: int| 0 <= i < more.len() implies cast_at(
        render,
        settings,
        records[i].1,
        ids_matter(records, settings),
        #[trigger] more[i],
    ) by {
        if i < runs.len() {
            assert(more[i] == runs[i]);
        }
    }
}

/// Whether the count to which an outcome is added has room for it.
fn has_room_for(status: &IngestionStatus, taken: bool) -> (result: bool)
    ensures
        forall|run: CastRun|
            taken == (run.message.len() == 0) ==> result == #[trigger] outcome_fits(status@, run),
{
    match status {
        IngestionStatus::Record(counts) => if taken {
            counts.successful < u32::MAX
        } else {
            counts.failed < u32::MAX
        },
        IngestionStatus::Bulk(_) => true,
    }
}

/// Casts the records of a stream to its schema, and notes the outcome of each. Where a record stops
/// it, the outcomes of the records before it are noted.
pub fn admit_records<F: Fn(&JsonValue) -> String>(
    records: Vec<(i64, Object)>,
    settings: &WriteSettings,
    status: &mut IngestionStatus,
    get_string_value: &F,
) -> (result: Result<Admission, AdmitStop>)
    requires
        forall|x: &JsonValue| get_string_value.requires((x,)),
    ensures
        exists|runs: Seq<CastRun>| #[trigger]
            cast_by(*get_string_value, settings@, records_view(records@), runs) && final(status)@
                == note_outcomes(
                old(status)@,
                settings@,
                records_view(records@),
                ids_matter(records_view(records@), settings@),
                runs,
            ) && match result {
                Ok(admission) => {
                    &&& runs.len() == records@.len()
                    &&& records_view(admission.admitted@) == admitted(records_view(records@), runs)
                    &&& refusals_view(admission.refused@) == turned_away(runs)
                },
                Err(reason) => stopped_behind(
                    *get_string_value,
                    settings@,
                    records_view(records@),
                    final(status)@,
                    runs,
                    reason,
                ),
            },
{
    let ghost all = records_view(records@);
    let ghost first = status@;
    let matters = batch_has_doc_id(&records, settings);
    let mut taken: Vec<(i64, Object)> = Vec::new();
    let mut refused: Vec<(Object, String)> = Vec::new();
    let ghost mut runs: Seq<CastRun> = Seq::empty();
    assert(records_view(taken@) =~= Seq::empty());
    assert(refusals_view(refused@) =~= Seq::empty());
    for record in iter: records
        invariant
            iter.seq() == records@,
            all == records_view(records@),
            forall|x: &JsonValue| get_string_value.requires((x,)),
            first == old(status)@,
            matters == ids_matter(all, settings@),
            runs.len() == iter.index(),
            cast_by(*get_string_value, settings@, all, runs),
            records_view(taken@) == admitted(all, runs),
            refusals_view(refused@) == turned_away(runs),
            status@ == note_outcomes(first, settings@, all, matters, runs),
    {
        let (timestamp, record) = record;
        let mut record = record;
        let ghost at = iter.index() as int;
        let ghost given = record@;
        assert(all[at] == (timestamp, given));
        let doc_id = if matters {
            match record.get(ID_KEY) {
                Some(JsonValue::String(id)) => Some(id.clone()),
                Some(_) => {
                    return Err(AdmitStop::IdNotString);
                },
                None => None,
            }
        } else {
            None
        };
        assert(option_view(doc_id) == doc_id_of(given, matters));
        assert(id_is_string(given, matters));
        let outcome = cast_record(&mut record, settings, get_string_value);
        let ghost run = choose|run: CastRun| #[trigger]
            cast_of(*get_string_value, settings@.delta, given, run) && match outcome {
                Some(cast) => run.finite && cast_outcome(run, record@, cast),
                None => !run.finite,
            };
        let ghost more = runs.push(run);
        assert(more.drop_last() =~= runs);
        match outcome {
            Some(Ok(_)) => {
                if !has_room_for(status, true) {
                    assert(!outcome_fits(status@, run));
                    return Err(AdmitStop::CountFull);
                }
                assert(outcome_fits(status@, run));
                note_success(status, settings, doc_id);
                let ghost before = taken@;
                taken.push((timestamp, record));
                assert(records_view(taken@) =~= records_view(before).push((timestamp, record@)));
            },
            Some(Err(message)) => {
                if !has_room_for(status, false) {
                    assert(!outcome_fits(status@, run));
                    return Err(AdmitStop::CountFull);
                }
                assert(outcome_fits(status@, run));
                note_failure(status, settings, doc_id, &record, &message);
                let ghost before = refused@;
                refused.push((record, message));
                assert(refusals_view(refused@) =~= refusals_view(before).push(
                    (record@, message@),
                ));
            },
            None => {
                return Err(AdmitStop::NotFinite);
            },
        }
        proof {
            lemma_one_more_cast(*get_string_value, settings@, all, runs, run);
            runs = more;
        }
    }
    Ok(Admission { admitted: taken, refused })
}

/// `key` is a buffer that the function may give for a record.
pub open spec fn key_for<K: Fn(i64, &Object) -> String>(
    partition_key: K,
    timestamp: i64,
    record: Map<Seq<char>, Json>,
    key: Seq<char>,
) -> bool {
    exists|given: &Object, k: String|
        given@ == record && k@ == key && #[trigger] partition_key.ensures((timestamp, given), k)
}

/// A record goes where the one before it went: records are not partitioned by their fields, and
/// the two lie in one bucket.
pub open spec fn follows(
    records: Seq<(i64, Map<Seq<char>, Json>)>,
    settings: WriteView,
    i: int,
) -> bool {
    &&& !settings.partitioned()
    &&& i > 0
    &&& bucket_of(records[i].0, settings.time_level) == bucket_of(
        records[i - 1].0,
        settings.time_level,
    )
}

/// The buffer of a record is that of the one before it where it follows it, else one that the
/// function may give.
pub open spec fn keyed_at<K: Fn(i64, &Object) -> String>(
    partition_key: K,
    records: Seq<(i64, Map<Seq<char>, Json>)>,
    settings: WriteView,
    keys: Seq<Seq<char>>,
    i: int,
) -> bool {
    if follows(records, settings, i) {
        keys[i] == keys[i - 1]
    } else {
        key_for(partition_key, records[i].0, records[i].1, keys[i])
    }
}

/// `keys` holds the buffer of each record.
pub open spec fn keyed_by<K: Fn(i64, &Object) -> String>(
    partition_key: K,
    records: Seq<(i64, Map<Seq<char>, Json>)>,
    settings: WriteView,
    keys: Seq<Seq<char>>,
) -> bool {
    &&& keys.len() == records.len()
    &&& forall|i: int|
        0 <= i < keys.len() ==> #[trigger] keyed_at(partition_key, records, settings, keys, i)
}

/// The records of a buffer, in their order.
pub open spec fn buffered_under(
    records: Seq<(i64, Map<Seq<char>, Json>)>,
    keys: Seq<Seq<char>>,
    key: Seq<char>,
) -> Seq<Json>
    decreases keys.len(),
{
    if keys.len() == 0 {
        Seq::empty()
    } else {
        let before = buffered_under(records, keys.drop_last(), key);
        if keys.last() == key {
            before.push(Json::Object(records[keys.len() - 1].1))
        } else {
            before
        }
    }
}

/// The buffers, each with its records. A buffer without records is not there.
pub open spec fn buffered(
    records: Seq<(i64, Map<Seq<char>, Json>)>,
    keys: Seq<Seq<char>>,
) -> Map<Seq<char>, Seq<Json>> {
    Map::new(
        |key: Seq<char>| buffered_under(records, keys, key).len() > 0,
        |key: Seq<char>| buffered_under(records, keys, key),
    )
}

/// What a list of values says.
pub open spec fn values_view(values: Seq<JsonValue>) -> Seq<Json> {
    values.map_values(|value: JsonValue| value@)
}

/// What the values of each buffer say.
pub open spec fn buffers_view(buffers: Map<Seq<char>, Vec<JsonValue>>) -> Map<
    Seq<char>,
    Seq<Json>,
> {
    buffers.map_values(|values: Vec<JsonValue>| values_view(values@))
}

/// One more record goes behind the others of its buffer.
proof fn lemma_buffered_step(
    records: Seq<(i64, Map<Seq<char>, Json>)>,
    keys: Seq<Seq<char>>,
    before: Map<Seq<char>, Vec<JsonValue>>,
    after: Map<Seq<char>, Vec<JsonValue>>,
    value: JsonValue,
)
    requires
        keys.len() > 0,
        value@ == Json::Object(records[keys.len() - 1].1),
        after.dom() == before.dom().insert(keys.last()),
        list_at(after, keys.last()) == list_at(before, keys.last()).push(value),
        forall|other: Seq<char>|
            other != keys.last() && before.contains_key(other) ==> #[trigger] after[other]
                == before[other],
        buffers_view(before) == buffered(records, keys.drop_last()),
    ensures
        buffers_view(after) == buffered(records, keys),
{
    let some = keys.drop_last();
    let key = keys.last();
    let old_buffers = buffered(records, some);
    assert forall|other: Seq<char>| before.contains_key(other)
        == #[trigger] old_buffers.contains_key(other) by {
        assert(buffers_view(before).contains_key(other) == before.contains_key(other));
    }
    assert(values_view(list_at(before, key)) =~= buffered_under(records, some, key)) by {
        assert(before.contains_key(key) == old_buffers.contains_key(key));
        if before.contains_key(key) {
            assert(buffers_view(before)[key] == values_view(before[key]@));
        }
    }
    assert(values_view(list_at(after, key)) =~= values_view(list_at(before, key)).push(value@));
    let view = buffers_view(after);
    let want = buffered(records, keys);
    assert forall|other: Seq<char>| #[trigger] view.contains_key(other) == want.contains_key(
        other,
    ) by {
        assert(before.contains_key(other) == old_buffers.contains_key(other));
        assert(after.dom().contains(other) == (before.dom().contains(other) || other == key));
    }
    assert forall|other: Seq<char>| #[trigger] view.contains_key(other) implies view[other]
        == want[other] by {
        if other == key {
            assert(view[other] == values_view(after[other]@));
        } else {
            assert(before.contains_key(other));
            assert(after[other] == before[other]);
            assert(buffers_view(before)[other] == values_view(before[other]@));
            assert(old_buffers[other] == buffered_under(records, some, other));
        }
    }
    assert(view =~= want);
}

/// Sorts records into buffers. `partition_key` gives the buffer of a record; it is asked for the
/// first record, and then only where a record does not follow the one before it.
pub fn fill_buffers<K: Fn(i64, &Object) -> String>(
    records: Vec<(i64, Object)>,
    settings: &WriteSettings,
    partition_key: &K,
) -> (result: Dict<Vec<JsonValue>>)
    requires
        forall|timestamp: i64, record: &Object| partition_key.requires((timestamp, record)),
    ensures
        exists|keys: Seq<Seq<char>>| #[trigger]
            keyed_by(*partition_key, records_view(records@), settings@, keys) && buffers_view(
                result@,
            ) == buffered(records_view(records@), keys),
{
    let ghost all = records_view(records@);
    let ghost mut keys: Seq<Seq<char>> = Seq::empty();
    let mut buffers: Dict<Vec<JsonValue>> = Dict::new();
    let mut cached: Option<(i64, String)> = None;
    assert(buffers_view(buffers@) =~= buffered(all, keys));
    for record in iter: records
        invariant
            iter.seq() == records@,
            all == records_view(records@),
            forall|timestamp: i64, record: &Object| partition_key.requires((timestamp, record)),
            keys.len() == iter.index(),
            forall|i: int|
                0 <= i < keys.len() ==> #[trigger] keyed_at(
                    *partition_key,
                    all,
                    settings@,
                    keys,
                    i,
                ),
            settings.partition_keys@.len() == 0 ==> match cached {
                Some((last, key)) => {
                    &&& keys.len() > 0
                    &&& last == bucket_of(all[keys.len() - 1].0, settings@.time_level)
                    &&& key@ == keys.last()
                },
                None => keys.len() == 0,
            },
            buffers_view(buffers@) == buffered(all, keys),
    {
        let (timestamp, record) = record;
        let ghost at = iter.index() as int;
        assert(all[at] == (timestamp, record@));
        let current = bucket(timestamp, settings.time_level);
        let reused = match &cached {
            Some((last, key)) if settings.partition_keys.len() == 0 && *last == current => Some(key.clone()),
            _ => None,
        };
        let key = match reused {
            Some(key) => key,
            None => {
                let key = partition_key(timestamp, &record);
                assert(key_for(*partition_key, timestamp, record@, key@));
                cached = Some((current, key.clone()));
                key
            },
        };
        let ghost more = keys.push(key@);
        assert forall|i: int| 0 <= i < more.len() implies #[trigger] keyed_at(
            *partition_key,
            all,
            settings@,
            more,
            i,
        ) by {
            if i < keys.len() {
                assert(keyed_at(*partition_key, all, settings@, keys, i));
            }
        }
        let ghost before = buffers@;
        let value = JsonValue::Object(record);
        buffers.push(key.as_str(), value);
        proof {
            assert(more.drop_last() =~= keys);
            lemma_buffered_step(all, more, before, buffers@, value);
            keys = more;
        }
    }
    assert(keyed_by(*partition_key, all, settings@, keys));
    buffers
}

/// The records as they are, with nothing cast.
pub open spec fn uncast(records: Seq<(i64, Map<Seq<char>, Json>)>) -> Seq<CastRun> {
    Seq::new(records.len(), |i: int| cast_start(records[i].1))
}

/// Puts all records into one buffer, that of the first, and notes their successes.
pub fn fill_one_buffer<K: Fn(i64, &Object) -> String>(
    records: Vec<(i64, Object)>,
    settings: &WriteSettings,
    status: &mut IngestionStatus,
    partition_key: &K,
) -> (result: Dict<Vec<JsonValue>>)
    requires
        forall|timestamp: i64, record: &Object| partition_key.requires((timestamp, record)),
        one_buffer(records_view(records@), settings@),
        successes_fit(old(status)@, records@.len()),
    ensures
        exists|key: Seq<char>| #[trigger]
            key_for(*partition_key, records@[0].0, records@[0].1@, key) && buffers_view(result@)
                == Map::<Seq<char>, Seq<Json>>::empty().insert(
                key,
                Seq::new(records@.len(), |i: int| Json::Object(records@[i].1@)),
            ),
        final(status)@ == note_outcomes(
            old(status)@,
            settings@,
            records_view(records@),
            false,
            uncast(records_view(records@)),
        ),
{
    let ghost all = records_view(records@);
    let ghost runs = uncast(all);
    let ghost first = status@;
    let key = partition_key(records[0].0, &records[0].1);
    assert(key_for(*partition_key, records@[0].0, records@[0].1@, key@));
    let mut values: Vec<JsonValue> = Vec::new();
    for record in iter: records
        invariant
            iter.seq() == records@,
            all == records_view(records@),
            runs == uncast(all),
            first == old(status)@,
            successes_fit(first, records@.len()),
            values@.len() == iter.index(),
            forall|i: int|
                0 <= i < values@.len() ==> (#[trigger] values@[i])@ == Json::Object(
                    records@[i].1@,
                ),
            status@ == note_outcomes(first, settings@, all, false, runs.take(iter.index() as int)),
    {
        let ghost at = iter.index() as int;
        proof {
            law_outcomes_are_counted(first, settings@, all, false, runs.take(at));
            assert(runs.take(at + 1).drop_last() =~= runs.take(at));
            assert(runs.take(at + 1).last() == cast_start(all[at].1));
        }
        note_success(status, settings, None::<String>);
        values.push(JsonValue::Object(record.1));
    }
    proof {
        assert(runs.take(runs.len() as int) =~= runs);
    }
    let ghost view = values_view(values@);
    let mut buffers: Dict<Vec<JsonValue>> = Dict::new();
    buffers.insert(key, values);
    proof {
        assert(view =~= Seq::new(records@.len(), |i: int| Json::Object(records@[i].1@)));
        assert(buffers_view(buffers@) =~= Map::<Seq<char>, Seq<Json>>::empty().insert(key@, view));
    }
    buffers
}

/// The values of a record in some fields.
pub open spec fn distinct_of(
    record: Map<Seq<char>, Json>,
    fields: Seq<Seq<char>>,
) -> Map<Seq<char>, Json> {
    Map::new(
        |name: Seq<char>| record.contains_key(name) && fields.contains(name),
        |name: Seq<char>| record[name],
    )
}

/// The distinct values of records: of each its values in the fields, where it has any.
pub open spec fn distinct_values_of(
    records: Seq<(i64, Map<Seq<char>, Json>)>,
    fields: Seq<Seq<char>>,
) -> Seq<Map<Seq<char>, Json>>
    decreases records.len(),
{
    if records.len() == 0 {
        Seq::empty()
    } else {
        let before = distinct_values_of(records.drop_last(), fields);
        let values = distinct_of(records.last().1, fields);
        if values == Map::<Seq<char>, Json>::empty() {
            before
        } else {
            before.push(values)
        }
    }
}

/// What a list of objects says.
pub open spec fn objects_view(objects: Seq<Object>) -> Seq<Map<Seq<char>, Json>> {
    objects.map_values(|object: Object| object@)
}

/// One more name is among the names.
proof fn lemma_one_more_name(names: Seq<Seq<char>>, i: int)
    requires
        0 <= i < names.len(),
    ensures
        forall|name: Seq<char>| #[trigger]
            names.take(i + 1).contains(name) == (names.take(i).contains(name) || name == names[i]),
{
    let some = names.take(i);
    let more = names.take(i + 1);
    assert forall|name: Seq<char>| #[trigger] more.contains(name) == (some.contains(name) || name
        == names[i]) by {
        if some.contains(name) {
            let j = choose|j: int| 0 <= j < some.len() && some[j] == name;
            assert(more[j] == name);
        }
        if name == names[i] {
            assert(more[i] == name);
        }
        if more.contains(name) && name != names[i] {
            let j = choose|j: int| 0 <= j < more.len() && more[j] == name;
            assert(some[j] == name);
        }
    }
}

fn distinct_value(record: &Object, fields: &Vec<String>) -> (result: Object)
    ensures
        result@ == distinct_of(record@, views(fields@)),
{
    let ghost names = views(fields@);
    let mut values = Object::new();
    let mut i: usize = 0;
    assert(values@ =~= distinct_of(record@, names.take(0)));
    while i < fields.len()
        invariant
            i <= fields@.len(),
            names == views(fields@),
            values@ == distinct_of(record@, names.take(i as int)),
        decreases fields.len() - i,
    {
        let ghost before = values@;
        proof {
            assert(names[i as int] == fields@[i as int]@);
            lemma_one_more_name(names, i as int);
        }
        if let Some(value) = record.get(fields[i].as_str()) {
            values.insert(fields[i].clone(), value.clone());
        }
        assert(values@ =~= distinct_of(record@, names.take(i + 1)));
        i += 1;
    }
    assert(names.take(i as int) =~= names);
    values
}

/// Gathers the distinct values of records, where the stream asks for them.
pub fn distinct_values(records: &Vec<(i64, Object)>, settings: &WriteSettings) -> (result: Vec<
    Object,
>)
    ensures
        objects_view(result@) == if settings@.distinct {
            distinct_values_of(records_view(records@), settings@.distinct_fields)
        } else {
            Seq::empty()
        },
{
    let mut gathered: Vec<Object> = Vec::new();
    assert(objects_view(gathered@) =~= Seq::empty());
    if !settings.distinct {
        return gathered;
    }
    let ghost all = records_view(records@);
    let ghost fields = settings@.distinct_fields;
    let mut i: usize = 0;
    while i < records.len()
        invariant
            i <= records@.len(),
            all == records_view(records@),
            fields == settings@.distinct_fields,
            objects_view(gathered@) == distinct_values_of(all.take(i as int), fields),
        decreases records.len() - i,
    {
        let ghost before = gathered@;
        proof {
            assert(all.take(i + 1).drop_last() =~= all.take(i as int));
            assert(all.take(i + 1).last().1 == records@[i as int].1@);
        }
        let values = distinct_value(&records[i].1, &settings.distinct_fields);
        if !values.is_empty() {
            gathered.push(values);
            assert(objects_view(gathered@) =~= objects_view(before).push(values@));
        }
        i += 1;
    }
    assert(all.take(i as int) =~= all);
    gathered
}

/// Whether distinct values are sent: there are some, the stream asks for them, and it is not
/// itself a stream of distinct values.
pub fn sends_distinct_values(
    values: &Vec<Object>,
    settings: &WriteSettings,
    distinct_stream_prefix: &str,
) -> (result: bool)
    ensures
        result == (values@.len() > 0 && settings@.distinct && !occurs_at(
            settings@.stream_name,
            distinct_stream_prefix@,
            0,
        )),
        result ==> settings@.distinct && values@.len() > 0,
        settings@.distinct && values@.len() > 0 ==> (!result <==> exists|rest: Seq<char>|
            settings@.stream_name == #[trigger] (distinct_stream_prefix@ + rest)),
{
    proof {
        let name = settings@.stream_name;
        let prefix = distinct_stream_prefix@;
        law_prefix_is_in_front(prefix, Seq::empty(), name);
        assert forall|rest: Seq<char>| name == #[trigger] (prefix + rest) implies occurs_at(
            name,
            prefix,
            0,
        ) by {
            law_prefix_is_in_front(prefix, rest, name);
        }
    }
    values.len() > 0 && !starts_with(settings.stream_name.as_str(), distinct_stream_prefix)
        && settings.distinct
}

/// A bucket holds the times of one span; times before zero are counted from zero downwards.
pub proof fn law_buckets_are_spans(timestamp: i64, level: PartitionTimeLevel)
    ensures
        timestamp >= 0 ==> bucket_of(timestamp, level) * bucket_span(level) <= timestamp < (
        bucket_of(timestamp, level) + 1) * bucket_span(level),
        timestamp <= 0 ==> (bucket_of(timestamp, level) - 1) * bucket_span(level) < timestamp
            <= bucket_of(timestamp, level) * bucket_span(level),
{
    let span = bucket_span(level) as int;
    let b = bucket_of(timestamp, level);
    assert(span == DAY_MICROS || span == HOUR_MICROS);
    if timestamp >= 0 {
        let t = timestamp as int;
        assert(t == span * (t / span) + t % span) by (nonlinear_arith)
            requires
                span > 0,
        ;
        assert(b * span <= t < (b + 1) * span) by (nonlinear_arith)
            requires
                t == span * b + t % span,
                0 <= t % span < span,
        ;
    }
    if timestamp <= 0 {
        let t = -timestamp;
        let c = -b;
        assert(t == span * (t / span) + t % span) by (nonlinear_arith)
            requires
                span > 0,
        ;
        assert(c == t / span);
        assert((b - 1) * span < -t <= b * span) by (nonlinear_arith)
            requires
                t == span * c + t % span,
                0 <= t % span < span,
                b == -c,
        ;
    }
}

/// Every record has one outcome. Counts grow by one for each record; a bulk response grows by one
/// item for each record, or only for each failure where successes are not answered, behind the
/// items that are there; and it has its mark of errors where it had it before or where a record
/// failed.
pub proof fn law_outcomes_are_counted(
    status: StatusView,
    settings: WriteView,
    records: Seq<(i64, Map<Seq<char>, Json>)>,
    ids_matter: bool,
    runs: Seq<CastRun>,
)
    ensures
        admitted(records, runs).len() + turned_away(runs).len() == runs.len(),
        match (status, note_outcomes(status, settings, records, ids_matter, runs)) {
            (
                StatusView::Record { successful: s, failed: f, error: e },
                StatusView::Record { successful, failed, error },
            ) => {
                &&& successful == s + admitted(records, runs).len()
                &&& failed == f + turned_away(runs).len()
                &&& error == if turned_away(runs).len() > 0 {
                    turned_away(runs).last().1
                } else {
                    e
                }
            },
            (StatusView::Bulk(before), StatusView::Bulk(after)) => {
                &&& after.items.len() == before.items.len() + if settings.errors_only {
                    turned_away(runs).len()
                } else {
                    runs.len()
                }
                &&& after.items.take(before.items.len() as int) == before.items
                &&& after.errors == (before.errors || turned_away(runs).len() > 0)
            },
            _ => false,
        },
    decreases runs.len(),
{
    if runs.len() > 0 {
        let some = runs.drop_last();
        law_outcomes_are_counted(status, settings, records, ids_matter, some);
    }
    if let StatusView::Bulk(before) = status {
        let after = note_outcomes(status, settings, records, ids_matter, runs)->Bulk_0;
        if runs.len() > 0 {
            let mid = note_outcomes(
                status,
                settings,
                records,
                ids_matter,
                runs.drop_last(),
            )->Bulk_0;
            assert(after.items.take(before.items.len() as int) =~= mid.items.take(
                before.items.len() as int,
            ));
        } else {
            assert(after.items.take(before.items.len() as int) =~= before.items);
        }
    }
}

/// Records that are all in one buffer: their buffer holds them in their order.
pub(crate) proof fn lemma_one_key(
    records: Seq<(i64, Map<Seq<char>, Json>)>,
    keys: Seq<Seq<char>>,
    key: Seq<char>,
)
    requires
        keys.len() <= records.len(),
        forall|i: int| 0 <= i < keys.len() ==> #[trigger] keys[i] == key,
    ensures
        buffered_under(records, keys, key) == Seq::new(
            keys.len(),
            |i: int| Json::Object(records[i].1),
        ),
        forall|other: Seq<char>|
            other != key ==> (#[trigger] buffered_under(records, keys, other)).len() == 0,
    decreases keys.len(),
{
    if keys.len() > 0 {
        let some = keys.drop_last();
        assert forall|i: int| 0 <= i < some.len() implies #[trigger] some[i] == key by {
            assert(some[i] == keys[i]);
        }
        lemma_one_key(records, some, key);
        assert(keys[keys.len() - 1] == key);
        assert forall|other: Seq<char>| other != key implies (#[trigger] buffered_under(
            records,
            keys,
            other,
        )).len() == 0 by {
            assert(buffered_under(records, some, other).len() == 0);
        }
    }
    assert(buffered_under(records, keys, key) =~= Seq::new(
        keys.len(),
        |i: int| Json::Object(records[i].1),
    ));
}

/// Records in one bucket that are not partitioned by their fields all go to the buffer of the
/// first.
proof fn lemma_one_bucket<K: Fn(i64, &Object) -> String>(
    partition_key: K,
    records: Seq<(i64, Map<Seq<char>, Json>)>,
    settings: WriteView,
    keys: Seq<Seq<char>>,
    i: int,
)
    requires
        one_buffer(records, settings),
        keyed_by(partition_key, records, settings, keys),
        0 <= i < keys.len(),
    ensures
        keys[i] == keys[0],
    decreases i,
{
    if i > 0 {
        lemma_one_bucket(partition_key, records, settings, keys, i - 1);
        assert(bucket_of(records[i].0, settings.time_level) == bucket_of(
            records[i - 1].0,
            settings.time_level,
        ));
        assert(keyed_at(partition_key, records, settings, keys, i));
    }
}

/// Records that go to one buffer at once fare as they would one by one: none of them is changed
/// or refused, their outcomes are the same, and so is the one buffer that holds them.
pub proof fn law_one_buffer_is_a_shortcut<
    F: Fn(&JsonValue) -> String,
    K: Fn(i64, &Object) -> String,
>(
    render: F,
    partition_key: K,
    records: Seq<(i64, Map<Seq<char>, Json>)>,
    settings: WriteView,
    status: StatusView,
    runs: Seq<CastRun>,
    keys: Seq<Seq<char>>,
)
    requires
        one_buffer(records, settings),
        cast_by(render, settings, records, runs),
        runs.len() == records.len(),
        keyed_by(partition_key, records, settings, keys),
    ensures
        runs == uncast(records),
        admitted(records, runs) == records,
        turned_away(runs) == Seq::<(Map<Seq<char>, Json>, Seq<char>)>::empty(),
        note_outcomes(status, settings, records, ids_matter(records, settings), runs)
            == note_outcomes(status, settings, records, false, uncast(records)),
        key_for(partition_key, records[0].0, records[0].1, keys[0]),
        buffered(records, keys) == Map::<Seq<char>, Seq<Json>>::empty().insert(
            keys[0],
            Seq::new(records.len(), |i: int| Json::Object(records[i].1)),
        ),
{
    assert(runs =~= uncast(records)) by {
        assert forall|i: int| 0 <= i < runs.len() implies #[trigger] runs[i] == cast_start(
            records[i].1,
        ) by {
            assert(cast_at(
                render,
                settings,
                records[i].1,
                ids_matter(records, settings),
                runs[i],
            ));
        }
    }
    lemma_all_admitted(records, runs);
    assert(records.take(runs.len() as int) =~= records);
    assert(keyed_at(partition_key, records, settings, keys, 0));
    assert forall|i: int| 0 <= i < keys.len() implies #[trigger] keys[i] == keys[0] by {
        lemma_one_bucket(partition_key, records, settings, keys, i);
    }
    lemma_one_key(records, keys, keys[0]);
    assert(buffered(records, keys) =~= Map::<Seq<char>, Seq<Json>>::empty().insert(
        keys[0],
        Seq::new(records.len(), |i: int| Json::Object(records[i].1)),
    ));
}

/// Records with nothing to cast are all admitted, as they are.
pub(crate) proof fn lemma_all_admitted(
    records: Seq<(i64, Map<Seq<char>, Json>)>,
    runs: Seq<CastRun>,
)
    requires
        runs.len() <= records.len(),
        forall|i: int| 0 <= i < runs.len() ==> #[trigger] runs[i] == cast_start(records[i].1),
    ensures
        admitted(records, runs) == records.take(runs.len() as int),
        turned_away(runs).len() == 0,
    decreases runs.len(),
{
    if runs.len() > 0 {
        let some = runs.drop_last();
        assert forall|i: int| 0 <= i < some.len() implies #[trigger] some[i] == cast_start(
            records[i].1,
        ) by {
            assert(some[i] == runs[i]);
        }
        lemma_all_admitted(records, some);
        assert(runs[runs.len() - 1] == runs.last());
    }
    assert(admitted(records, runs) =~= records.take(runs.len() as int));
}

/// How many whole days, or else whole hours, lie between a time and zero, counted towards zero.
pub open spec fn whole_spans(timestamp: i64, level: PartitionTimeLevel) -> int {
    let span: int = if level == PartitionTimeLevel::Daily {
        86_400_000_000
    } else {
        3_600_000_000
    };
    if timestamp >= 0 {
        timestamp as int / span
    } else {
        -((-timestamp) / span)
    }
}

/// The bucket of a time is the day in which it lies where files hold days, and the hour where they
/// hold hours or nothing is set: two times that lie a span or more apart lie in different buckets.
pub proof fn law_buckets_are_hours_or_days(one: i64, other: i64, level: PartitionTimeLevel)
    ensures
        bucket_of(one, level) == whole_spans(one, level),
        bucket_of(one, PartitionTimeLevel::Unset) == bucket_of(one, PartitionTimeLevel::Hourly),
        0 <= one <= other && level == PartitionTimeLevel::Daily && other - one >= 86_400_000_000
            ==> bucket_of(one, level) < bucket_of(other, level),
        0 <= one <= other && level != PartitionTimeLevel::Daily && other - one >= 3_600_000_000
            ==> bucket_of(one, level) < bucket_of(other, level),
        0 <= one <= other ==> bucket_of(one, level) <= bucket_of(other, level),
{
    law_buckets_are_spans(one, level);
    law_buckets_are_spans(other, level);
}

/// The function may give the key for the record.
pub open spec fn may_give_key<K: Fn(i64, &Object) -> String>(
    partition_key: K,
    record: (i64, Map<Seq<char>, Json>),
    key: Seq<char>,
) -> bool {
    exists|given: &Object, k: String|
        given@ == record.1 && k@ == key && #[trigger] partition_key.ensures((record.0, given), k)
}

/// The record `j`, of the same day or hour as the record `i`, has the key of the record `i` from
/// the function.
pub open spec fn keyed_like<K: Fn(i64, &Object) -> String>(
    partition_key: K,
    records: Seq<(i64, Map<Seq<char>, Json>)>,
    level: PartitionTimeLevel,
    keys: Seq<Seq<char>>,
    i: int,
    j: int,
) -> bool {
    &&& 0 <= j <= i
    &&& whole_spans(records[j].0, level) == whole_spans(records[i].0, level)
    &&& may_give_key(partition_key, records[j], keys[i])
}

/// The buffer of a record is always one that the function may give for a record of the same day or
/// hour, the record itself or one before it; for the record itself where records are partitioned by
/// their fields.
pub proof fn law_buffers_are_those_of_their_bucket<K: Fn(i64, &Object) -> String>(
    partition_key: K,
    records: Seq<(i64, Map<Seq<char>, Json>)>,
    settings: WriteView,
    keys: Seq<Seq<char>>,
    i: int,
)
    requires
        keyed_by(partition_key, records, settings, keys),
        0 <= i < keys.len(),
    ensures
        exists|j: int| #[trigger]
            keyed_like(partition_key, records, settings.time_level, keys, i, j),
        settings.partition_keys.len() > 0 ==> may_give_key(partition_key, records[i], keys[i]),
    decreases i,
{
    assert(keyed_at(partition_key, records, settings, keys, i));
    law_buckets_are_hours_or_days(records[i].0, 0, settings.time_level);
    if follows(records, settings, i) {
        law_buffers_are_those_of_their_bucket(partition_key, records, settings, keys, i - 1);
        law_buckets_are_hours_or_days(records[i - 1].0, 0, settings.time_level);
        let j = choose|j: int| #[trigger]
            keyed_like(partition_key, records, settings.time_level, keys, i - 1, j);
        assert(keyed_like(partition_key, records, settings.time_level, keys, i, j));
    } else {
        assert(may_give_key(partition_key, records[i], keys[i]));
        assert(keyed_like(partition_key, records, settings.time_level, keys, i, i));
    }
}

/// Where the function tells days or hours apart, no two records of different ones share a buffer.
pub proof fn law_buckets_share_no_buffer<K: Fn(i64, &Object) -> String>(
    partition_key: K,
    records: Seq<(i64, Map<Seq<char>, Json>)>,
    settings: WriteView,
    keys: Seq<Seq<char>>,
    a: int,
    b: int,
)
    requires
        keyed_by(partition_key, records, settings, keys),
        0 <= a < keys.len(),
        0 <= b < keys.len(),
        whole_spans(records[a].0, settings.time_level) != whole_spans(
            records[b].0,
            settings.time_level,
        ),
        forall|one: int, other: int, key: Seq<char>|
            0 <= one < records.len() && 0 <= other < records.len() && #[trigger] may_give_key(
                partition_key,
                records[one],
                key,
            ) && #[trigger] may_give_key(partition_key, records[other], key) ==> whole_spans(
                records[one].0,
                settings.time_level,
            ) == whole_spans(records[other].0, settings.time_level),
    ensures
        keys[a] != keys[b],
{
    let level = settings.time_level;
    law_buffers_are_those_of_their_bucket(partition_key, records, settings, keys, a);
    law_buffers_are_those_of_their_bucket(partition_key, records, settings, keys, b);
    let one = choose|j: int| #[trigger] keyed_like(partition_key, records, level, keys, a, j);
    let other = choose|j: int| #[trigger] keyed_like(partition_key, records, level, keys, b, j);
    if keys[a] == keys[b] {
        assert(may_give_key(partition_key, records[one], keys[a]));
        assert(may_give_key(partition_key, records[other], keys[a]));
    }
}

/// All records go to one buffer at once exactly where nothing asks for a look at each of them: there
/// are records, all of one day or hour, they are neither partitioned by their fields nor cast, no
/// distinct values are gathered, the stream has no alerts, and no record has a document id that is
/// to be answered.
pub proof fn law_one_buffer_needs_alike_records(
    records: Seq<(i64, Map<Seq<char>, Json>)>,
    settings: WriteView,
)
    ensures
        one_buffer(records, settings) <==> {
            &&& records.len() > 0
            &&& settings.partition_keys.len() == 0
            &&& settings.delta is None
            &&& !settings.distinct
            &&& !settings.has_alerts
            &&& settings.errors_only || forall|i: int|
                0 <= i < records.len() ==> !(#[trigger] records[i]).1.contains_key("_id"@)
            &&& forall|i: int, j: int|
                0 <= i < records.len() && 0 <= j < records.len() ==> whole_spans(
                    (#[trigger] records[i]).0,
                    settings.time_level,
                ) == whole_spans((#[trigger] records[j]).0, settings.time_level)
        },
{
    let level = settings.time_level;
    assert forall|i: int| 0 <= i < records.len() implies bucket_of((#[trigger] records[i]).0, level)
        == whole_spans(records[i].0, level) by {
        law_buckets_are_hours_or_days(records[i].0, 0, level);
    }
    if records.len() > 0 {
        assert(bucket_of(records[0].0, level) == whole_spans(records[0].0, level));
    }
}

/// Document ids are answered exactly where successes are and some record has one, and then each
/// answer has the id of its record.
pub proof fn law_ids_are_those_of_the_records(
    records: Seq<(i64, Map<Seq<char>, Json>)>,
    settings: WriteView,
    i: int,
)
    requires
        0 <= i < records.len(),
    ensures
        doc_id_of(records[i].1, ids_matter(records, settings)) == if !settings.errors_only
            && records[i].1.contains_key("_id"@) && records[i].1["_id"@] is String {
            Some(records[i].1["_id"@]->String_0)
        } else {
            None
        },
{
}

/// Admission stops at a record only for what the record or a count is: its document id is no string
/// where ids are answered, a count has no room for one more, or a double among the fields to which
/// it is cast has no JSON form.
pub proof fn law_admission_stops_for_a_reason<F: Fn(&JsonValue) -> String>(
    render: F,
    settings: WriteView,
    records: Seq<(i64, Map<Seq<char>, Json>)>,
    status: StatusView,
    runs: Seq<CastRun>,
    reason: AdmitStop,
)
    requires
        stopped_behind(render, settings, records, status, runs, reason),
    ensures
        runs.len() < records.len(),
        match reason {
            AdmitStop::IdNotString => {
                let record = records[runs.len() as int].1;
                !settings.errors_only && record.contains_key("_id"@) && !(record["_id"@] is String)
            },
            AdmitStop::NotFinite => settings.delta matches Some(fields) && (names_differ(fields)
                ==> exists|i: int|
                0 <= i < fields.len() && (#[trigger] fields[i]).class == TypeClass::Float && {
                    let record = records[runs.len() as int].1;
                    &&& record.contains_key(fields[i].name)
                    &&& record[fields[i].name] matches Json::String(text) && float_reading(text)
                        == FloatReading::NotFinite
                }),
            AdmitStop::CountFull => status matches StatusView::Record { successful, failed, .. }
                && exists|run: CastRun| #[trigger]
                cast_of(render, settings.delta, records[runs.len() as int].1, run) && run.finite
                    && if run.message.len() == 0 {
                    successful >= u32::MAX
                } else {
                    failed >= u32::MAX
                },
        },
{
    if reason == AdmitStop::NotFinite {
        let record = records[runs.len() as int].1;
        let run = choose|run: CastRun| #[trigger]
            cast_of(render, settings.delta, record, run) && !run.finite;
        let fields = settings.delta->Some_0;
        let texts = choose|texts: Seq<Seq<char>>| #[trigger]
            rendered(render, cast_start(record), fields, texts) && run == cast_run(
                cast_start(record),
                fields,
                texts,
            );
        if names_differ(fields) {
            if finite_fields(record, fields) {
                law_finite_fields_are_cast(record, fields, texts);
            }
            let i = choose|i: int|
                0 <= i < fields.len() && !((#[trigger] fields[i]).class == TypeClass::Float
                    && record.contains_key(fields[i].name) ==> reading_of(record[fields[i].name])
                    != FloatReading::NotFinite);
            assert(fields[i].class == TypeClass::Float);
        }
    }
}

/// Records that are admitted or refused one by one have document ids that are strings, where these
/// are answered, and each is cast on its own.
pub proof fn law_cast_records_have_string_ids<F: Fn(&JsonValue) -> String>(
    render: F,
    settings: WriteView,
    records: Seq<(i64, Map<Seq<char>, Json>)>,
    runs: Seq<CastRun>,
    i: int,
)
    requires
        cast_by(render, settings, records, runs),
        0 <= i < runs.len(),
    ensures
        !settings.errors_only && records[i].1.contains_key("_id"@) ==> records[i].1["_id"@] is String,
        runs[i].finite,
        settings.delta is None ==> runs[i].record == records[i].1 && runs[i].message.len() == 0,
        settings.delta matches Some(fields) ==> exists|texts: Seq<Seq<char>>| #[trigger]
            rendered(render, cast_start(records[i].1), fields, texts) && runs[i] == cast_run(
                cast_start(records[i].1),
                fields,
                texts,
            ),
{
    assert(cast_at(
        render,
        settings,
        records[i].1,
        ids_matter(records, settings),
        runs[i],
    ));
}

/// The distinct values of one more record come behind those of the others: what the record holds in
/// the fields, field by field, or nothing where it holds nothing in them.
pub proof fn law_distinct_values_are_gathered(
    records: Seq<(i64, Map<Seq<char>, Json>)>,
    record: (i64, Map<Seq<char>, Json>),
    fields: Seq<Seq<char>>,
)
    ensures
        distinct_values_of(Seq::empty(), fields).len() == 0,
        ({
            let before = distinct_values_of(records, fields);
            let after = distinct_values_of(records.push(record), fields);
            if exists|i: int| 0 <= i < fields.len() && record.1.contains_key(#[trigger] fields[i]) {
                &&& after.drop_last() == before
                &&& after.len() == before.len() + 1
                &&& forall|name: Seq<char>| #[trigger]
                    after.last().contains_key(name) <==> record.1.contains_key(name) && exists|
                        i: int,
                    | 0 <= i < fields.len() && #[trigger] fields[i] == name
                &&& forall|name: Seq<char>| #[trigger]
                    after.last().contains_key(name) ==> after.last()[name] == record.1[name]
            } else {
                after == before
            }
        }),
{
    let all = records.push(record);
    assert(all.drop_last() =~= records);
    let values = distinct_of(record.1, fields);
    if exists|i: int| 0 <= i < fields.len() && record.1.contains_key(#[trigger] fields[i]) {
        let i = choose|i: int| 0 <= i < fields.len() && record.1.contains_key(#[trigger] fields[i]);
        assert(values.contains_key(fields[i]));
        let after = distinct_values_of(all, fields);
        assert(after.drop_last() =~= distinct_values_of(records, fields));
    } else {
        assert(values =~= Map::<Seq<char>, Json>::empty());
    }
}

/// What buffers, values, objects and refused records say leaves nothing out.
pub proof fn law_buffers_are_seen_whole(
    buffers: Map<Seq<char>, Vec<JsonValue>>,
    key: Seq<char>,
    objects: Seq<Object>,
    refused: Seq<(Object, String)>,
    i: int,
)
    requires
        buffers.contains_key(key),
    ensures
        buffers_view(buffers).dom() == buffers.dom(),
        buffers_view(buffers)[key].len() == buffers[key]@.len(),
        0 <= i < buffers[key]@.len() ==> buffers_view(buffers)[key][i] == buffers[key]@[i]@,
        objects_view(objects).len() == objects.len(),
        0 <= i < objects.len() ==> objects_view(objects)[i] == objects[i]@,
        refusals_view(refused).len() == refused.len(),
        0 <= i < refused.len() ==> refusals_view(refused)[i].0 == refused[i].0@
            && refusals_view(refused)[i].1 == refused[i].1@,
{
    assert(buffers_view(buffers).dom() =~= buffers.dom());
}

/// A stream is partitioned by its own keys, and its files hold its own span, only where its schema
/// has partition keys; else its records are not partitioned and its files hold the span that holds
/// for all streams. Distinct values are gathered where the stream has them enabled, of the fields
/// for all streams and of its own. Records are cast to all fields whose types changed, or to the
/// marked ones among them where the schema itself has changed.
pub proof fn law_settings_follow_the_stream(
    stream_name: Seq<char>,
    facts: StreamFacts,
    defaults: Seq<Seq<char>>,
    own: Seq<Seq<char>>,
    errors_only: bool,
    name: Seq<char>,
)
    ensures
        ({
            let settings = settings_for(stream_name, facts, defaults, own, errors_only);
            &&& settings.stream_name == stream_name
            &&& settings.errors_only == errors_only
            &&& settings.has_alerts == facts.has_alerts
            &&& settings.distinct == facts.enable_distinct_fields
            &&& !facts.has_partition_keys ==> settings.partition_keys.len() == 0
                && settings.time_level == facts.default_level
            &&& facts.has_partition_keys ==> settings.partition_keys == views(facts.partition_keys@)
                && settings.time_level == facts.stream_level
            &&& settings.distinct_fields.contains(name) <==> defaults.contains(name)
                || own.contains(name)
            &&& settings.delta is Some <==> facts.types_delta is Some
            &&& settings.delta == fields_to_cast(
                delta_view(facts.types_delta),
                facts.is_schema_changed,
            )
            &&& !facts.is_schema_changed ==> settings.delta == delta_view(facts.types_delta)
            &&& settings.delta matches Some(delta) ==> facts.is_schema_changed ==> forall|i: int|
                0 <= i < delta.len() ==> (#[trigger] delta[i]).metadata.contains_key("zo_cast"@)
        }),
{
    let settings = settings_for(stream_name, facts, defaults, own, errors_only);
    let all = defaults + own;
    if defaults.contains(name) {
        let i = choose|i: int| 0 <= i < defaults.len() && defaults[i] == name;
        assert(all[i] == name);
    }
    if own.contains(name) {
        let i = choose|i: int| 0 <= i < own.len() && own[i] == name;
        assert(all[defaults.len() + i] == name);
    }
    if all.contains(name) {
        let i = choose|i: int| 0 <= i < all.len() && all[i] == name;
        if i < defaults.len() {
            assert(defaults[i] == name);
        } else {
            assert(own[i - defaults.len()] == name);
        }
    }
    if settings.delta is Some && facts.is_schema_changed {
        let given = delta_view(facts.types_delta)->Some_0;
        let delta = settings.delta->Some_0;
        assert forall|i: int| 0 <= i < delta.len() implies (
        #[trigger] delta[i]).metadata.contains_key("zo_cast"@) by {
            given.lemma_filter_pred(|field: FieldView| marked(field), i);
        }
    }
}

} // verus!
