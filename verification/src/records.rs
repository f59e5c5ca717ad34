//! Records of a bulk request: reading each from its line, judging its timestamp, and gathering
//! the records of each stream.

use crate::dict::{list_at, Dict};
use crate::json::{parse_json_fast, simd_reading, Json, JsonValue, Number, Object};
use crate::metadata::ID_KEY;
use crate::response::{
    add_record_status, with_status, BulkResponse, ErrorView, ItemView, ResponseView,
    TS_PARSE_FAILED,
};
use crate::scan::{data_view, line_at, streams_view, DataLine, DataLineView};
use crate::text::option_view;
use vstd::prelude::*;
use vstd::slice::slice_subrange;

verus! {

/// The field that holds a record's timestamp, in microseconds.
pub const TIMESTAMP_COL_NAME: &'static str = "_timestamp";

/// What became of a data line.
#[derive(Debug, PartialEq)]
pub enum ParsedRecord {
    /// A record with its timestamp.
    Ready { val: Object, stream_idx: usize, timestamp: i64 },
    /// A record whose timestamp cannot be read.
    TimestampError { value: JsonValue, stream_idx: usize, doc_id: Option<String> },
    /// A record from too long ago, or from too far ahead.
    OutOfRange { value: JsonValue, stream_idx: usize, doc_id: Option<String>, too_old: bool },
    /// No JSON object.
    ParseError,
}

/// What a `ParsedRecord` says.
pub enum RecordView {
    Ready { val: Map<Seq<char>, Json>, stream_idx: int, timestamp: i64 },
    TimestampError { value: Json, stream_idx: int, doc_id: Option<Seq<char>> },
    OutOfRange { value: Json, stream_idx: int, doc_id: Option<Seq<char>>, too_old: bool },
    ParseError,
}

impl View for ParsedRecord {
    type V = RecordView;

    open spec fn view(&self) -> RecordView {
        match self {
            ParsedRecord::Ready { val, stream_idx, timestamp } => RecordView::Ready {
                val: val@,
                stream_idx: *stream_idx as int,
                timestamp: *timestamp,
            },
            ParsedRecord::TimestampError { value, stream_idx, doc_id } => {
                RecordView::TimestampError {
                    value: value@,
                    stream_idx: *stream_idx as int,
                    doc_id: option_view(*doc_id),
                }
            },
            ParsedRecord::OutOfRange { value, stream_idx, doc_id, too_old } => {
                RecordView::OutOfRange {
                    value: value@,
                    stream_idx: *stream_idx as int,
                    doc_id: option_view(*doc_id),
                    too_old: *too_old,
                }
            },
            ParsedRecord::ParseError => RecordView::ParseError,
        }
    }
}

/// What a list of parsed records says.
pub open spec fn parsed_view(parsed: Seq<ParsedRecord>) -> Seq<RecordView> {
    parsed.map_values(|record: ParsedRecord| record@)
}

/// What a record's timestamp is: read from the record, with the mark whether it stands there in
/// microseconds; not readable; or, where the record has none, the present.
#[derive(Clone, Copy, PartialEq, Eq, Debug, Structural)]
pub enum TimestampReading {
    Read(i64, bool),
    Unreadable,
    Absent(i64),
}

/// The times between which records are taken in.
#[derive(Clone, Copy, PartialEq, Eq, Debug, Structural)]
pub struct TimeWindow {
    pub min_ts: i64,
    pub max_ts: i64,
}

impl TimeWindow {
    /// The times from so many microseconds before now to so many after it.
    pub fn around(now: i64, allowed_upto: i64, allowed_in_future: i64) -> (result: TimeWindow)
        requires
            i64::MIN <= now - allowed_upto <= i64::MAX,
            i64::MIN <= now + allowed_in_future <= i64::MAX,
        ensures
            result.min_ts == now - allowed_upto,
            result.max_ts == now + allowed_in_future,
            forall|t: i64| #[trigger]
                result.holds(t) <==> now - t <= allowed_upto && t - now <= allowed_in_future,
    {
        TimeWindow { min_ts: now - allowed_upto, max_ts: now + allowed_in_future }
    }

    /// The time lies between the two.
    pub open spec fn holds(self, timestamp: i64) -> bool {
        self.min_ts <= timestamp <= self.max_ts
    }
}

/// A record with its document id, where it has one.
pub open spec fn with_doc_id(
    val: Map<Seq<char>, Json>,
    doc_id: Option<Seq<char>>,
) -> Map<Seq<char>, Json> {
    match doc_id {
        Some(id) => val.insert(ID_KEY@, Json::String(id)),
        None => val,
    }
}

/// A record with its timestamp written into it.
pub open spec fn with_timestamp(val: Map<Seq<char>, Json>, timestamp: i64) -> Map<Seq<char>, Json> {
    val.insert(TIMESTAMP_COL_NAME@, Json::Number(Number::of_i64(timestamp)))
}

/// A record at a time: ready where the time is one at which records are taken in. `stands` says
/// that the record holds its timestamp as it is to be stored.
pub open spec fn judge_time(
    val: Map<Seq<char>, Json>,
    line: DataLineView,
    window: TimeWindow,
    timestamp: i64,
    stands: bool,
) -> RecordView {
    if !window.holds(timestamp) {
        RecordView::OutOfRange {
            value: Json::Object(val),
            stream_idx: line.stream_idx,
            doc_id: line.doc_id,
            too_old: timestamp < window.min_ts,
        }
    } else {
        RecordView::Ready {
            val: if stands {
                val
            } else {
                with_timestamp(val, timestamp)
            },
            stream_idx: line.stream_idx,
            timestamp,
        }
    }
}

/// A record by what its timestamp is.
pub open spec fn judge(
    val: Map<Seq<char>, Json>,
    line: DataLineView,
    window: TimeWindow,
    reading: TimestampReading,
) -> RecordView {
    match reading {
        TimestampReading::Read(timestamp, stands) => judge_time(
            val,
            line,
            window,
            timestamp,
            stands,
        ),
        TimestampReading::Absent(now) => judge_time(val, line, window, now, false),
        TimestampReading::Unreadable => RecordView::TimestampError {
            value: Json::Object(val),
            stream_idx: line.stream_idx,
            doc_id: line.doc_id,
        },
    }
}

/// Judges a record by what its timestamp is.
pub fn judge_record(
    val: Object,
    line: DataLine,
    window: TimeWindow,
    reading: TimestampReading,
) -> (result: ParsedRecord)
    ensures
        result@ == judge(val@, line@, window, reading),
{
    let (timestamp, stands): (i64, bool) = match reading {
        TimestampReading::Read(timestamp, stands) => (timestamp, stands),
        TimestampReading::Absent(now) => (now, false),
        TimestampReading::Unreadable => {
            return ParsedRecord::TimestampError {
                value: JsonValue::Object(val),
                stream_idx: line.stream_idx,
                doc_id: line.doc_id,
            };
        },
    };
    if timestamp < window.min_ts || timestamp > window.max_ts {
        return ParsedRecord::OutOfRange {
            value: JsonValue::Object(val),
            stream_idx: line.stream_idx,
            doc_id: line.doc_id,
            too_old: timestamp < window.min_ts,
        };
    }
    let mut val = val;
    if !stands {
        val.insert(
            TIMESTAMP_COL_NAME.to_string(),
            JsonValue::Number(Number::from_i64(timestamp)),
        );
    }
    ParsedRecord::Ready { val, stream_idx: line.stream_idx, timestamp }
}

/// `reading` is what the functions that read timestamps and the clock may give for a record.
pub open spec fn timestamp_read<P: Fn(&JsonValue) -> Option<(i64, bool)>, N: Fn() -> i64>(
    parse_timestamp: P,
    now_micros: N,
    val: Map<Seq<char>, Json>,
    reading: TimestampReading,
) -> bool {
    if val.contains_key(TIMESTAMP_COL_NAME@) {
        exists|x: &JsonValue, r: Option<(i64, bool)>|
            x@ == val[TIMESTAMP_COL_NAME@] && #[trigger] parse_timestamp.ensures((x,), r) && reading
                == (match r {
                Some((timestamp, stands)) => TimestampReading::Read(timestamp, stands),
                None => TimestampReading::Unreadable,
            })
    } else {
        exists|now: i64| #[trigger]
            now_micros.ensures((), now) && reading == TimestampReading::Absent(now)
    }
}

/// `record` is what a data line may become: a line that is no JSON object is an error, any other
/// one a record with its document id, judged by its timestamp.
pub open spec fn record_of<P: Fn(&JsonValue) -> Option<(i64, bool)>, N: Fn() -> i64>(
    parse_timestamp: P,
    now_micros: N,
    body: Seq<u8>,
    line: DataLineView,
    window: TimeWindow,
    record: RecordView,
) -> bool {
    match simd_reading(line_at(body, (line.start, line.end))) {
        Some(Json::Object(fields)) => {
            let val = with_doc_id(fields, line.doc_id);
            exists|reading: TimestampReading| #[trigger]
                timestamp_read(parse_timestamp, now_micros, val, reading) && record == judge(
                    val,
                    line,
                    window,
                    reading,
                )
        },
        _ => record == RecordView::ParseError,
    }
}

/// Reads a data line. `parse_timestamp` reads a timestamp in microseconds, and says whether it
/// stands there so; `now_micros` gives the present.
pub fn read_record<P: Fn(&JsonValue) -> Option<(i64, bool)>, N: Fn() -> i64>(
    body: &[u8],
    line: DataLine,
    window: TimeWindow,
    parse_timestamp: &P,
    now_micros: &N,
) -> (result: ParsedRecord)
    requires
        line.start <= line.end <= body@.len(),
        forall|x: &JsonValue| parse_timestamp.requires((x,)),
        now_micros.requires(()),
    ensures
        record_of(*parse_timestamp, *now_micros, body@, line@, window, result@),
{
    let bytes = slice_subrange(body, line.start, line.end);
    let mut val = match parse_json_fast(bytes) {
        Some(JsonValue::Object(val)) => val,
        _ => {
            return ParsedRecord::ParseError;
        },
    };
    if let Some(id) = &line.doc_id {
        val.insert(ID_KEY.to_string(), JsonValue::String(id.clone()));
    }
    let reading = match val.get(TIMESTAMP_COL_NAME) {
        Some(stamp) => match parse_timestamp(stamp) {
            Some((timestamp, stands)) => TimestampReading::Read(timestamp, stands),
            None => TimestampReading::Unreadable,
        },
        None => TimestampReading::Absent(now_micros()),
    };
    assert(timestamp_read(*parse_timestamp, *now_micros, val@, reading));
    judge_record(val, line, window, reading)
}

/// Maps the items of a list, on several threads, by `rayon`'s `into_par_iter`, `map` and
/// `collect`. Believed of them, as their documentation says: the result holds, in the order of
/// the list, what the function returned for each item.
#[verifier::external_body]
fn par_map<T: Send, U: Send, F: Fn(T) -> U + Sync + Send>(items: Vec<T>, f: F) -> (result: Vec<U>)
    requires
        forall|i: int| 0 <= i < items@.len() ==> f.requires((#[trigger] items@[i],)),
    ensures
        result@.len() == items@.len(),
        forall|i: int| 0 <= i < items@.len() ==> f.ensures((items@[i],), #[trigger] result@[i]),
{
    rayon::iter::ParallelIterator::collect(
        rayon::iter::ParallelIterator::map(
            rayon::iter::IntoParallelIterator::into_par_iter(items),
            f,
        ),
    )
}

/// Each record is what its data line may become.
pub open spec fn records_of<P: Fn(&JsonValue) -> Option<(i64, bool)>, N: Fn() -> i64>(
    parse_timestamp: P,
    now_micros: N,
    body: Seq<u8>,
    lines: Seq<DataLineView>,
    window: TimeWindow,
    records: Seq<RecordView>,
) -> bool {
    &&& records.len() == lines.len()
    &&& forall|i: int|
        0 <= i < lines.len() ==> record_of(
            parse_timestamp,
            now_micros,
            body,
            lines[i],
            window,
            #[trigger] records[i],
        )
}

/// Reads all data lines, on several threads.
pub fn read_records<
    P: Fn(&JsonValue) -> Option<(i64, bool)> + Sync + Send,
    N: Fn() -> i64 + Sync + Send,
>(
    body: &[u8],
    lines: Vec<DataLine>,
    window: TimeWindow,
    parse_timestamp: &P,
    now_micros: &N,
) -> (result: Vec<ParsedRecord>)
    requires
        forall|i: int|
            0 <= i < lines@.len() ==> (#[trigger] lines@[i]).start <= lines@[i].end <= body@.len(),
        forall|x: &JsonValue| parse_timestamp.requires((x,)),
        now_micros.requires(()),
    ensures
        records_of(
            *parse_timestamp,
            *now_micros,
            body@,
            data_view(lines@),
            window,
            parsed_view(result@),
        ),
{
    let read = |line: DataLine| -> (record: ParsedRecord)
        requires
            line.start <= line.end <= body@.len(),
        ensures
            record_of(*parse_timestamp, *now_micros, body@, line@, window, record@),
        { read_record(body, line, window, parse_timestamp, now_micros) };
    let ghost given = lines@;
    let result = par_map(lines, read);
    proof {
        assert forall|i: int| 0 <= i < data_view(given).len() implies record_of(
            *parse_timestamp,
            *now_micros,
            body@,
            data_view(given)[i],
            window,
            #[trigger] parsed_view(result@)[i],
        ) by {
            assert(read.ensures((given[i],), result@[i]));
        }
    }
    result
}

/// The text of the error that a request gets one of whose records is no JSON object.
pub const PARSE_FAILED: &'static str = "Failed to parse JSON data line";

/// Why a record is refused that comes from too long ago, or from too far ahead.
#[derive(Debug, PartialEq)]
pub struct DiscardReasons {
    pub too_old: String,
    pub too_new: String,
}

/// What `DiscardReasons` says.
pub struct ReasonsView {
    pub too_old: Seq<char>,
    pub too_new: Seq<char>,
}

impl View for DiscardReasons {
    type V = ReasonsView;

    open spec fn view(&self) -> ReasonsView {
        ReasonsView { too_old: self.too_old@, too_new: self.too_new@ }
    }
}

/// What a list of records with their timestamps says.
pub open spec fn records_view(records: Seq<(i64, Object)>) -> Seq<(i64, Map<Seq<char>, Json>)> {
    records.map_values(|record: (i64, Object)| (record.0, record.1@))
}

/// What the records of each stream say.
pub open spec fn grouped_view(groups: Map<Seq<char>, Vec<(i64, Object)>>) -> Map<
    Seq<char>,
    Seq<(i64, Map<Seq<char>, Json>)>,
> {
    groups.map_values(|records: Vec<(i64, Object)>| records_view(records@))
}

/// A response with the refusal of a record, where the record is refused.
pub open spec fn with_refusal(
    response: ResponseView,
    record: RecordView,
    streams: Seq<(Seq<char>, Seq<char>)>,
    reasons: ReasonsView,
) -> ResponseView {
    match record {
        RecordView::TimestampError { value, stream_idx, doc_id } => with_status(
            response.with_errors(),
            streams[stream_idx].0,
            doc_id,
            streams[stream_idx].1,
            Some(value),
            Some((TS_PARSE_FAILED@, TS_PARSE_FAILED@)),
            false,
        ),
        RecordView::OutOfRange { value, stream_idx, doc_id, too_old } => with_status(
            response.with_errors(),
            streams[stream_idx].0,
            doc_id,
            streams[stream_idx].1,
            Some(value),
            Some(
                (
                    TS_PARSE_FAILED@,
                    if too_old {
                        reasons.too_old
                    } else {
                        reasons.too_new
                    },
                ),
            ),
            false,
        ),
        _ => response,
    }
}

/// A response with the refusals of all records that are refused, in their order.
pub open spec fn with_refusals(
    response: ResponseView,
    records: Seq<RecordView>,
    streams: Seq<(Seq<char>, Seq<char>)>,
    reasons: ReasonsView,
) -> ResponseView
    decreases records.len(),
{
    if records.len() == 0 {
        response
    } else {
        with_refusal(
            with_refusals(response, records.drop_last(), streams, reasons),
            records.last(),
            streams,
            reasons,
        )
    }
}

/// The records of a stream that are ready, in their order.
pub open spec fn ready_for(
    records: Seq<RecordView>,
    streams: Seq<(Seq<char>, Seq<char>)>,
    name: Seq<char>,
) -> Seq<(i64, Map<Seq<char>, Json>)>
    decreases records.len(),
{
    if records.len() == 0 {
        Seq::empty()
    } else {
        let before = ready_for(records.drop_last(), streams, name);
        match records.last() {
            RecordView::Ready { val, stream_idx, timestamp } if streams[stream_idx].0 == name => {
                before.push((timestamp, val))
            },
            _ => before,
        }
    }
}

/// The records that are ready, by their streams. A stream without such a record is not there.
pub open spec fn grouped(
    records: Seq<RecordView>,
    streams: Seq<(Seq<char>, Seq<char>)>,
) -> Map<Seq<char>, Seq<(i64, Map<Seq<char>, Json>)>> {
    Map::new(
        |name: Seq<char>| ready_for(records, streams, name).len() > 0,
        |name: Seq<char>| ready_for(records, streams, name),
    )
}

/// Every record names one of the streams.
pub open spec fn streams_known(records: Seq<RecordView>, streams: int) -> bool {
    forall|i: int|
        0 <= i < records.len() ==> match #[trigger] records[i] {
            RecordView::Ready { stream_idx, .. } => stream_idx < streams,
            RecordView::TimestampError { stream_idx, .. } => stream_idx < streams,
            RecordView::OutOfRange { stream_idx, .. } => stream_idx < streams,
            RecordView::ParseError => true,
        }
}

/// One more record that is ready goes behind the others of its stream.
proof fn lemma_grouped_step(
    records: Seq<RecordView>,
    streams: Seq<(Seq<char>, Seq<char>)>,
    before: Map<Seq<char>, Vec<(i64, Object)>>,
    after: Map<Seq<char>, Vec<(i64, Object)>>,
    item: (i64, Object),
)
    requires
        records.len() > 0,
        records.last() matches RecordView::Ready { val, stream_idx, timestamp } && {
            let name = streams[stream_idx].0;
            &&& val == item.1@
            &&& timestamp == item.0
            &&& after.dom() == before.dom().insert(name)
            &&& list_at(after, name) == list_at(before, name).push(item)
            &&& forall|other: Seq<char>|
                other != name && before.contains_key(other) ==> #[trigger] after[other]
                    == before[other]
        },
        grouped_view(before) == grouped(records.drop_last(), streams),
    ensures
        grouped_view(after) == grouped(records, streams),
{
    let some = records.drop_last();
    let name = streams[records.last()->Ready_stream_idx].0;
    let old_groups = grouped(some, streams);
    assert forall|other: Seq<char>| before.contains_key(other) == #[trigger] old_groups.contains_key(
        other,
    ) by {
        assert(grouped_view(before).contains_key(other) == before.contains_key(other));
    }
    assert(records_view(list_at(before, name)) =~= ready_for(some, streams, name)) by {
        assert(before.contains_key(name) == old_groups.contains_key(name));
        if before.contains_key(name) {
            assert(grouped_view(before)[name] == records_view(before[name]@));
        }
    }
    assert(records_view(list_at(after, name)) =~= records_view(list_at(before, name)).push(
        (item.0, item.1@),
    ));
    let view = grouped_view(after);
    let want = grouped(records, streams);
    assert forall|other: Seq<char>| #[trigger] view.contains_key(other) == want.contains_key(
        other,
    ) by {
        assert(before.contains_key(other) == old_groups.contains_key(other));
        assert(after.dom().contains(other) == (before.dom().contains(other) || other == name));
    }
    assert forall|other: Seq<char>| #[trigger] view.contains_key(other) implies view[other]
        == want[other] by {
        if other == name {
            assert(view[other] == records_view(after[other]@));
        } else {
            assert(before.contains_key(other));
            assert(after[other] == before[other]);
            assert(grouped_view(before)[other] == records_view(before[other]@));
            assert(old_groups[other] == ready_for(some, streams, other));
        }
    }
    assert(view =~= want);
}

/// Adds the refusal of a record to the response.
fn refuse_record(
    response: &mut BulkResponse,
    stream: &(String, String),
    value: JsonValue,
    doc_id: Option<String>,
    reason: &str,
)
    ensures
        final(response)@ == with_status(
            old(response)@.with_errors(),
            stream.0@,
            option_view(doc_id),
            stream.1@,
            Some(value@),
            Some((TS_PARSE_FAILED@, reason@)),
            false,
        ),
{
    response.errors = true;
    add_record_status(
        stream.0.clone(),
        doc_id,
        stream.1.clone(),
        Some(value),
        response,
        Some(TS_PARSE_FAILED.to_string()),
        Some(reason.to_string()),
        false,
    );
}

/// The first record that is no JSON object stands at `k`.
pub open spec fn stops_at(records: Seq<RecordView>, k: int) -> bool {
    &&& 0 <= k < records.len()
    &&& records[k] == RecordView::ParseError
    &&& !records.take(k).contains(RecordView::ParseError)
}

/// Gathers the records of each stream, and adds the refusals of the others to the response. One
/// record that is no JSON object refuses all of them; the response then holds the refusals of the
/// records before it.
pub fn collect_records(
    parsed: Vec<ParsedRecord>,
    streams: &Vec<(String, String)>,
    response: BulkResponse,
    reasons: &DiscardReasons,
) -> (result: Result<(BulkResponse, Dict<Vec<(i64, Object)>>), (String, BulkResponse)>)
    requires
        streams_known(parsed_view(parsed@), streams@.len() as int),
    ensures
        match result {
            Ok((after, groups)) => {
                &&& !parsed_view(parsed@).contains(RecordView::ParseError)
                &&& after@ == with_refusals(
                    response@,
                    parsed_view(parsed@),
                    streams_view(streams@),
                    reasons@,
                )
                &&& grouped_view(groups@) == grouped(parsed_view(parsed@), streams_view(streams@))
            },
            Err((message, after)) => {
                &&& message@ == PARSE_FAILED@
                &&& exists|k: int| #[trigger]
                    stops_at(parsed_view(parsed@), k) && after@ == with_refusals(
                        response@,
                        parsed_view(parsed@).take(k),
                        streams_view(streams@),
                        reasons@,
                    )
            },
        },
{
    let ghost all = parsed_view(parsed@);
    let ghost given = streams_view(streams@);
    let ghost first = response@;
    let mut after = response;
    let mut groups: Dict<Vec<(i64, Object)>> = Dict::new();
    assert(grouped_view(groups@) =~= grouped(all.take(0), given));
    for record in iter: parsed
        invariant
            iter.seq() == parsed@,
            all == parsed_view(parsed@),
            given == streams_view(streams@),
            streams_known(all, streams@.len() as int),
            !all.take(iter.index() as int).contains(RecordView::ParseError),
            first == response@,
            after@ == with_refusals(first, all.take(iter.index() as int), given, reasons@),
            grouped_view(groups@) == grouped(all.take(iter.index() as int), given),
    {
        let ghost at = iter.index() as int;
        proof {
            assert(all[at] == record@);
            assert(all.take(at + 1).drop_last() =~= all.take(at));
            assert(all.take(at + 1).last() == record@);
            if !(record@ is Ready) {
                assert(grouped(all.take(at + 1), given) =~= grouped(all.take(at), given));
            }
        }
        match record {
            ParsedRecord::Ready { val, stream_idx, timestamp } => {
                let ghost before = groups@;
                groups.push(streams[stream_idx].0.as_str(), (timestamp, val));
                proof {
                    lemma_grouped_step(all.take(at + 1), given, before, groups@, (timestamp, val));
                }
            },
            ParsedRecord::TimestampError { value, stream_idx, doc_id } => {
                refuse_record(&mut after, &streams[stream_idx], value, doc_id, TS_PARSE_FAILED);
            },
            ParsedRecord::OutOfRange { value, stream_idx, doc_id, too_old } => {
                let reason = if too_old {
                    reasons.too_old.as_str()
                } else {
                    reasons.too_new.as_str()
                };
                refuse_record(&mut after, &streams[stream_idx], value, doc_id, reason);
            },
            ParsedRecord::ParseError => {
                assert(stops_at(all, at));
                return Err((PARSE_FAILED.to_string(), after));
            },
        }
    }
    assert(all.take(all.len() as int) =~= all);
    Ok((after, groups))
}

/// A record that is ready comes from a time at which records are taken in, and a record whose
/// timestamp does not stand in it as it is to be stored holds it afterwards. All other fields
/// are those of the record.
pub proof fn law_ready_records_are_timely(
    val: Map<Seq<char>, Json>,
    line: DataLineView,
    window: TimeWindow,
    reading: TimestampReading,
)
    ensures
        match judge(val, line, window, reading) {
            RecordView::Ready { val: stored, stream_idx, timestamp } => {
                &&& window.holds(timestamp)
                &&& stream_idx == line.stream_idx
                &&& reading != TimestampReading::Read(timestamp, true) ==> stored.contains_key(
                    TIMESTAMP_COL_NAME@,
                ) && stored[TIMESTAMP_COL_NAME@] == Json::Number(Number::of_i64(timestamp))
                &&& stored.remove(TIMESTAMP_COL_NAME@) == val.remove(TIMESTAMP_COL_NAME@)
            },
            RecordView::OutOfRange { value, too_old, .. } => {
                &&& value == Json::Object(val)
                &&& match reading {
                    TimestampReading::Read(timestamp, _) => !window.holds(timestamp) && too_old == (
                    timestamp < window.min_ts),
                    TimestampReading::Absent(now) => !window.holds(now) && too_old == (now
                        < window.min_ts),
                    TimestampReading::Unreadable => false,
                }
            },
            RecordView::TimestampError { value, .. } => value == Json::Object(val) && reading
                == TimestampReading::Unreadable,
            RecordView::ParseError => false,
        },
{
    if let RecordView::Ready { val: stored, timestamp, .. } = judge(val, line, window, reading) {
        assert(stored.remove(TIMESTAMP_COL_NAME@) =~= val.remove(TIMESTAMP_COL_NAME@));
    }
}

/// How many records are refused.
pub open spec fn refused(records: Seq<RecordView>) -> nat
    decreases records.len(),
{
    if records.len() == 0 {
        0
    } else {
        refused(records.drop_last()) + (if records.last() is TimestampError || records.last()
            is OutOfRange {
            1nat
        } else {
            0
        })
    }
}

/// How many records are ready.
pub open spec fn ready(records: Seq<RecordView>) -> nat
    decreases records.len(),
{
    if records.len() == 0 {
        0
    } else {
        ready(records.drop_last()) + (if records.last() is Ready {
            1nat
        } else {
            0
        })
    }
}

/// Each record is either ready or refused, where all are JSON objects. Each refusal adds one item
/// behind those that are there, and a response has its mark of errors where it had it before or
/// where a record is refused.
pub proof fn law_refusals_are_answered(
    response: ResponseView,
    records: Seq<RecordView>,
    streams: Seq<(Seq<char>, Seq<char>)>,
    reasons: ReasonsView,
)
    ensures
        !records.contains(RecordView::ParseError) ==> ready(records) + refused(records)
            == records.len(),
        with_refusals(response, records, streams, reasons).items.len() == response.items.len()
            + refused(records),
        with_refusals(response, records, streams, reasons).items.take(response.items.len() as int)
            == response.items,
        with_refusals(response, records, streams, reasons).errors == (response.errors || refused(
            records,
        ) > 0),
        with_refusals(response, records, streams, reasons).took == response.took,
    decreases records.len(),
{
    if records.len() == 0 {
        assert(response.items.take(response.items.len() as int) =~= response.items);
    } else {
        let some = records.drop_last();
        law_refusals_are_answered(response, some, streams, reasons);
        assert(records[records.len() - 1] == records.last());
        if !records.contains(RecordView::ParseError) {
            assert(!some.contains(RecordView::ParseError)) by {
                if some.contains(RecordView::ParseError) {
                    let i = choose|i: int|
                        0 <= i < some.len() && some[i] == RecordView::ParseError;
                    assert(records[i] == some[i]);
                }
            }
        }
        let before = with_refusals(response, some, streams, reasons);
        let after = with_refusals(response, records, streams, reasons);
        assert(after.items.take(response.items.len() as int) =~= before.items.take(
            response.items.len() as int,
        ));
    }
}

/// A record that is ready is kept under its stream.
pub proof fn law_ready_records_are_kept(
    records: Seq<RecordView>,
    streams: Seq<(Seq<char>, Seq<char>)>,
    i: int,
)
    requires
        0 <= i < records.len(),
    ensures
        records[i] matches RecordView::Ready { val, stream_idx, timestamp } ==> {
            let groups = grouped(records, streams);
            &&& groups.contains_key(streams[stream_idx].0)
            &&& groups[streams[stream_idx].0].contains((timestamp, val))
        },
    decreases records.len(),
{
    if let RecordView::Ready { val, stream_idx, timestamp } = records[i] {
        let name = streams[stream_idx].0;
        let some = records.drop_last();
        let list = ready_for(records, streams, name);
        if i == records.len() - 1 {
            assert(list.last() == (timestamp, val));
            assert(list[list.len() - 1] == (timestamp, val));
        } else {
            law_ready_records_are_kept(some, streams, i);
            let before = ready_for(some, streams, name);
            assert(grouped(some, streams).contains_key(name));
            let k = choose|k: int| 0 <= k < before.len() && before[k] == (timestamp, val);
            assert(list[k] == (timestamp, val));
        }
        assert(grouped(records, streams).contains_key(name));
    }
}

/// Nothing is kept under a stream but records of that stream that are ready.
pub proof fn law_kept_records_are_ready(
    records: Seq<RecordView>,
    streams: Seq<(Seq<char>, Seq<char>)>,
    name: Seq<char>,
    k: int,
)
    requires
        0 <= k < ready_for(records, streams, name).len(),
    ensures
        exists|i: int|
            0 <= i < records.len() && (#[trigger] records[i] matches RecordView::Ready {
                val,
                stream_idx,
                timestamp,
            } && streams[stream_idx].0 == name && ready_for(records, streams, name)[k] == (
                timestamp,
                val,
            )),
    decreases records.len(),
{
    let some = records.drop_last();
    let before = ready_for(some, streams, name);
    if k < before.len() {
        law_kept_records_are_ready(some, streams, name, k);
        let i = choose|i: int|
            0 <= i < some.len() && (#[trigger] some[i] matches RecordView::Ready {
                val,
                stream_idx,
                timestamp,
            } && streams[stream_idx].0 == name && before[k] == (timestamp, val));
        assert(records[i] == some[i]);
    } else {
        assert(records[records.len() - 1] == records.last());
    }
}

/// The number that stands for a time in microseconds.
pub open spec fn time_number(timestamp: i64) -> Json {
    Json::Number(
        if timestamp >= 0 {
            Number::PosInt(timestamp as u64)
        } else {
            Number::NegInt(timestamp)
        },
    )
}

/// The fields of a record under its document id, where its metadata has one.
pub open spec fn under_id(
    fields: Map<Seq<char>, Json>,
    doc_id: Option<Seq<char>>,
) -> Map<Seq<char>, Json> {
    match doc_id {
        Some(id) => fields.insert("_id"@, Json::String(id)),
        None => fields,
    }
}

/// The time of a record may be `timestamp`: the function may read it in the record's own timestamp,
/// or, where the record has none, it may be the present. `stored` is the record with that time: as
/// it is where the function says that the timestamp stands there so, else with the time written
/// into it.
pub open spec fn may_have_time<P: Fn(&JsonValue) -> Option<(i64, bool)>, N: Fn() -> i64>(
    parse_timestamp: P,
    now_micros: N,
    val: Map<Seq<char>, Json>,
    timestamp: i64,
    stored: Map<Seq<char>, Json>,
) -> bool {
    if val.contains_key("_timestamp"@) {
        exists|x: &JsonValue, stands: bool|
            x@ == val["_timestamp"@] && #[trigger] parse_timestamp.ensures(
                (x,),
                Some((timestamp, stands)),
            ) && stored == if stands {
                val
            } else {
                val.insert("_timestamp"@, time_number(timestamp))
            }
    } else {
        now_micros.ensures((), timestamp) && stored == val.insert(
            "_timestamp"@,
            time_number(timestamp),
        )
    }
}

/// The function may fail to read the timestamp of a record.
pub open spec fn may_be_unreadable<P: Fn(&JsonValue) -> Option<(i64, bool)>>(
    parse_timestamp: P,
    val: Map<Seq<char>, Json>,
) -> bool {
    &&& val.contains_key("_timestamp"@)
    &&& exists|x: &JsonValue|
        x@ == val["_timestamp"@] && #[trigger] parse_timestamp.ensures(
            (x,),
            None::<(i64, bool)>,
        )
}

/// A line that is a JSON object becomes a record with its fields and its document id. The record is
/// ready where its time, read in it or the present, lies in the window, and then holds that time;
/// it is out of range where its time lies outside, too old where it lies before; and its timestamp
/// is unreadable only where the function that reads timestamps fails on the very value that the
/// record has, whatever that value is. A line that is no JSON object is an error.
pub proof fn law_records_are_read<P: Fn(&JsonValue) -> Option<(i64, bool)>, N: Fn() -> i64>(
    parse_timestamp: P,
    now_micros: N,
    body: Seq<u8>,
    line: DataLineView,
    window: TimeWindow,
    record: RecordView,
)
    requires
        record_of(parse_timestamp, now_micros, body, line, window, record),
    ensures
        match (simd_reading(body.subrange(line.start, line.end)), record) {
            (
                Some(Json::Object(fields)),
                RecordView::Ready { val: stored, stream_idx, timestamp },
            ) => {
                &&& stream_idx == line.stream_idx
                &&& window.min_ts <= timestamp <= window.max_ts
                &&& may_have_time(
                    parse_timestamp,
                    now_micros,
                    under_id(fields, line.doc_id),
                    timestamp,
                    stored,
                )
            },
            (
                Some(Json::Object(fields)),
                RecordView::OutOfRange { value, stream_idx, doc_id, too_old },
            ) => {
                &&& stream_idx == line.stream_idx
                &&& doc_id == line.doc_id
                &&& value == Json::Object(under_id(fields, line.doc_id))
                &&& exists|timestamp: i64, stored: Map<Seq<char>, Json>| #[trigger]
                    may_have_time(
                        parse_timestamp,
                        now_micros,
                        under_id(fields, line.doc_id),
                        timestamp,
                        stored,
                    ) && if too_old {
                        timestamp < window.min_ts
                    } else {
                        timestamp > window.max_ts
                    }
            },
            (
                Some(Json::Object(fields)),
                RecordView::TimestampError { value, stream_idx, doc_id },
            ) => {
                &&& stream_idx == line.stream_idx
                &&& doc_id == line.doc_id
                &&& value == Json::Object(under_id(fields, line.doc_id))
                &&& may_be_unreadable(parse_timestamp, under_id(fields, line.doc_id))
            },
            (Some(Json::Object(_)), RecordView::ParseError) => false,
            (_, RecordView::ParseError) => true,
            _ => false,
        },
{
    if let Some(Json::Object(fields)) = simd_reading(body.subrange(line.start, line.end)) {
        let val = under_id(fields, line.doc_id);
        assert(val == with_doc_id(fields, line.doc_id));
        let reading = choose|reading: TimestampReading| #[trigger]
            timestamp_read(parse_timestamp, now_micros, val, reading) && record == judge(
                val,
                line,
                window,
                reading,
            );
        match reading {
            TimestampReading::Read(timestamp, stands) => {
                let (x, r) = choose|x: &JsonValue, r: Option<(i64, bool)>|
                    x@ == val[TIMESTAMP_COL_NAME@] && #[trigger] parse_timestamp.ensures((x,), r)
                        && reading == (match r {
                        Some((timestamp, stands)) => TimestampReading::Read(timestamp, stands),
                        None => TimestampReading::Unreadable,
                    });
                let stored = if stands {
                    val
                } else {
                    val.insert("_timestamp"@, time_number(timestamp))
                };
                assert(r == Some((timestamp, stands)));
                assert(may_have_time(parse_timestamp, now_micros, val, timestamp, stored));
            },
            TimestampReading::Absent(now) => {
                let stored = val.insert("_timestamp"@, time_number(now));
                assert(may_have_time(parse_timestamp, now_micros, val, now, stored));
            },
            TimestampReading::Unreadable => {
                let (x, r) = choose|x: &JsonValue, r: Option<(i64, bool)>|
                    x@ == val[TIMESTAMP_COL_NAME@] && #[trigger] parse_timestamp.ensures((x,), r)
                        && reading == (match r {
                        Some((timestamp, stands)) => TimestampReading::Read(timestamp, stands),
                        None => TimestampReading::Unreadable,
                    });
                assert(r == None::<(i64, bool)>);
            },
        }
    }
}

/// A record whose timestamp can be read is judged by it: where the function cannot fail on the value
/// that the record has, the record is ready or out of range, and it is ready where every time that
/// the function may read lies in the window.
pub proof fn law_readable_timestamps_are_judged<
    P: Fn(&JsonValue) -> Option<(i64, bool)>,
    N: Fn() -> i64,
>(
    parse_timestamp: P,
    now_micros: N,
    body: Seq<u8>,
    line: DataLineView,
    window: TimeWindow,
    record: RecordView,
    fields: Map<Seq<char>, Json>,
)
    requires
        record_of(parse_timestamp, now_micros, body, line, window, record),
        simd_reading(body.subrange(line.start, line.end)) == Some(Json::Object(fields)),
        under_id(fields, line.doc_id).contains_key("_timestamp"@),
        forall|x: &JsonValue, r: Option<(i64, bool)>|
            x@ == under_id(fields, line.doc_id)["_timestamp"@] && #[trigger] parse_timestamp.ensures(
                (x,),
                r,
            ) ==> r is Some,
    ensures
        record is Ready || record is OutOfRange,
        (forall|x: &JsonValue, r: Option<(i64, bool)>|
            x@ == under_id(fields, line.doc_id)["_timestamp"@] && #[trigger] parse_timestamp.ensures(
                (x,),
                r,
            ) ==> (r matches Some((timestamp, _)) && window.min_ts <= timestamp
                <= window.max_ts)) ==> record is Ready,
        (forall|x: &JsonValue, r: Option<(i64, bool)>|
            x@ == under_id(fields, line.doc_id)["_timestamp"@] && #[trigger] parse_timestamp.ensures(
                (x,),
                r,
            ) ==> (r matches Some((timestamp, _)) && !(window.min_ts <= timestamp
                <= window.max_ts))) ==> record is OutOfRange,
{
    law_records_are_read(parse_timestamp, now_micros, body, line, window, record);
}

/// Judging a record changes nothing of it but its timestamp, and that only where it is not yet
/// stored as it is to be; the time by which it is judged is the one that was read, or the present.
pub proof fn law_records_are_judged_by_their_time(
    val: Map<Seq<char>, Json>,
    line: DataLineView,
    window: TimeWindow,
    timestamp: i64,
    stands: bool,
)
    ensures
        match judge(val, line, window, TimestampReading::Read(timestamp, stands)) {
            RecordView::Ready { val: stored, stream_idx, timestamp: kept } => {
                &&& window.min_ts <= timestamp <= window.max_ts
                &&& kept == timestamp
                &&& stream_idx == line.stream_idx
                &&& stored == if stands {
                    val
                } else {
                    val.insert("_timestamp"@, time_number(timestamp))
                }
            },
            RecordView::OutOfRange { value, stream_idx, doc_id, too_old } => {
                &&& value == Json::Object(val)
                &&& stream_idx == line.stream_idx
                &&& doc_id == line.doc_id
                &&& if too_old {
                    timestamp < window.min_ts
                } else {
                    timestamp > window.max_ts
                }
            },
            _ => false,
        },
        judge(val, line, window, TimestampReading::Absent(timestamp)) == judge(
            val,
            line,
            window,
            TimestampReading::Read(timestamp, false),
        ),
        judge(val, line, window, TimestampReading::Unreadable) == (RecordView::TimestampError {
            value: Json::Object(val),
            stream_idx: line.stream_idx,
            doc_id: line.doc_id,
        }),
{
}

/// How many of the first records are ready for a stream.
pub open spec fn ready_before(
    records: Seq<RecordView>,
    streams: Seq<(Seq<char>, Seq<char>)>,
    name: Seq<char>,
    i: int,
) -> int
    decreases i,
{
    if i <= 0 {
        0
    } else {
        ready_before(records, streams, name, i - 1) + if records[i - 1] is Ready
            && streams[records[i - 1]->Ready_stream_idx].0 == name {
            1int
        } else {
            0
        }
    }
}

/// How many of the first records are refused.
pub open spec fn refused_before(records: Seq<RecordView>, i: int) -> int
    decreases i,
{
    if i <= 0 {
        0
    } else {
        refused_before(records, i - 1) + if records[i - 1] is TimestampError || records[i - 1]
            is OutOfRange {
            1int
        } else {
            0
        }
    }
}

proof fn lemma_ready_taken(
    records: Seq<RecordView>,
    streams: Seq<(Seq<char>, Seq<char>)>,
    name: Seq<char>,
    n: int,
    i: int,
)
    requires
        0 <= i <= n <= records.len(),
    ensures
        0 <= ready_before(records, streams, name, i) <= i,
        ready_before(records.take(n), streams, name, i) == ready_before(records, streams, name, i),
    decreases i,
{
    if i > 0 {
        lemma_ready_taken(records, streams, name, n, i - 1);
    }
}

proof fn lemma_refused_taken(records: Seq<RecordView>, n: int, i: int)
    requires
        0 <= i <= n <= records.len(),
    ensures
        0 <= refused_before(records, i) <= i,
        refused_before(records.take(n), i) == refused_before(records, i),
    decreases i,
{
    if i > 0 {
        lemma_refused_taken(records, n, i - 1);
    }
}

/// The records that are ready for a stream wait under its name, once each and in their order: a
/// record waits behind as many as are ready for its stream before it, and no others wait there.
pub proof fn law_ready_records_wait_in_order(
    records: Seq<RecordView>,
    streams: Seq<(Seq<char>, Seq<char>)>,
    name: Seq<char>,
    i: int,
)
    requires
        0 <= i < records.len(),
    ensures
        ready_for(records, streams, name).len() == ready_before(
            records,
            streams,
            name,
            records.len() as int,
        ),
        grouped(records, streams).contains_key(name) <==> ready_before(
            records,
            streams,
            name,
            records.len() as int,
        ) > 0,
        grouped(records, streams).contains_key(name) ==> grouped(records, streams)[name]
            == ready_for(records, streams, name),
        records[i] is Ready && streams[records[i]->Ready_stream_idx].0 == name ==> {
            let k = ready_before(records, streams, name, i);
            &&& 0 <= k < ready_for(records, streams, name).len()
            &&& ready_for(records, streams, name)[k] == (
                records[i]->Ready_timestamp,
                records[i]->Ready_val,
            )
        },
    decreases records.len(),
{
    let some = records.drop_last();
    let n = some.len() as int;
    assert(some =~= records.take(n));
    lemma_ready_taken(records, streams, name, n, n);
    lemma_ready_taken(records, streams, name, n, i);
    if n > 0 {
        if i < n {
            law_ready_records_wait_in_order(some, streams, name, i);
        } else {
            law_ready_records_wait_in_order(some, streams, name, 0);
        }
    } else {
        assert(ready_for(some, streams, name).len() == 0);
    }
}

/// Each record that is refused is answered, in the order of the records: by an item under the action
/// of its stream, or under `index` where the action is empty, that names the stream, the document id
/// and the record, and gives the reason.
pub proof fn law_refused_records_are_answered_in_order(
    response: ResponseView,
    records: Seq<RecordView>,
    streams: Seq<(Seq<char>, Seq<char>)>,
    reasons: ReasonsView,
    i: int,
)
    requires
        0 <= i < records.len(),
    ensures
        with_refusals(response, records, streams, reasons).items.len() == response.items.len()
            + refused_before(records, records.len() as int),
        records[i] is TimestampError || records[i] is OutOfRange ==> {
            let at = response.items.len() + refused_before(records, i);
            let (value, stream_idx, doc_id, reason) = match records[i] {
                RecordView::TimestampError { value, stream_idx, doc_id } => (
                    value,
                    stream_idx,
                    doc_id,
                    "timestamp_parsing_failed"@,
                ),
                RecordView::OutOfRange { value, stream_idx, doc_id, too_old } => (
                    value,
                    stream_idx,
                    doc_id,
                    if too_old {
                        reasons.too_old
                    } else {
                        reasons.too_new
                    },
                ),
                _ => (Json::Null, 0, None, Seq::empty()),
            };
            let items = with_refusals(response, records, streams, reasons).items;
            let stream = streams[stream_idx];
            &&& 0 <= at < items.len()
            &&& items[at] == Map::<Seq<char>, ItemView>::empty().insert(
                if stream.1.len() == 0 {
                    "index"@
                } else {
                    stream.1
                },
                ItemView {
                    index: stream.0,
                    id: match doc_id {
                        Some(id) => id,
                        None => Seq::empty(),
                    },
                    status: 422,
                    error: Some(
                        ErrorView {
                            err_type: "timestamp_parsing_failed"@,
                            index: stream.0,
                            reason,
                            shard: "0"@,
                        },
                    ),
                    original_record: Some(value),
                    stream_name: stream.0,
                },
            )
        },
    decreases records.len(),
{
    let some = records.drop_last();
    let n = some.len() as int;
    assert(some =~= records.take(n));
    lemma_refused_taken(records, n, n);
    lemma_refused_taken(records, n, i);
    if n > 0 {
        if i < n {
            law_refused_records_are_answered_in_order(response, some, streams, reasons, i);
        } else {
            law_refused_records_are_answered_in_order(response, some, streams, reasons, 0);
        }
    } else {
        assert(with_refusals(response, some, streams, reasons) == response);
    }
}

/// What a list of records with their timestamps says leaves nothing out, and neither does what
/// became of a data line.
pub proof fn law_records_are_seen_whole(
    records: Seq<(i64, Object)>,
    i: int,
    groups: Map<Seq<char>, Vec<(i64, Object)>>,
    name: Seq<char>,
    one: ParsedRecord,
    other: ParsedRecord,
)
    requires
        0 <= i < records.len(),
        groups.contains_key(name),
    ensures
        records_view(records).len() == records.len(),
        records_view(records)[i].0 == records[i].0,
        records_view(records)[i].1 == records[i].1@,
        grouped_view(groups).dom() == groups.dom(),
        grouped_view(groups)[name] == records_view(groups[name]@),
        one@ == other@ ==> match (one, other) {
            (
                ParsedRecord::Ready { val, stream_idx, timestamp },
                ParsedRecord::Ready { val: v, stream_idx: s, timestamp: t },
            ) => val@ == v@ && stream_idx == s && timestamp == t,
            (
                ParsedRecord::TimestampError { value, stream_idx, doc_id },
                ParsedRecord::TimestampError { value: v, stream_idx: s, doc_id: d },
            ) => value@ == v@ && stream_idx == s && option_view(doc_id) == option_view(d),
            (
                ParsedRecord::OutOfRange { value, stream_idx, doc_id, too_old },
                ParsedRecord::OutOfRange { value: v, stream_idx: s, doc_id: d, too_old: o },
            ) => value@ == v@ && stream_idx == s && option_view(doc_id) == option_view(d)
                && too_old == o,
            (ParsedRecord::ParseError, ParsedRecord::ParseError) => true,
            _ => false,
        },
{
    assert(grouped_view(groups).dom() =~= groups.dom());
}

/// Every data line is read into a record of its own, in order.
pub proof fn law_each_line_is_read<P: Fn(&JsonValue) -> Option<(i64, bool)>, N: Fn() -> i64>(
    parse_timestamp: P,
    now_micros: N,
    body: Seq<u8>,
    lines: Seq<DataLineView>,
    window: TimeWindow,
    records: Seq<RecordView>,
    i: int,
)
    requires
        records_of(parse_timestamp, now_micros, body, lines, window, records),
    ensures
        records.len() == lines.len(),
        0 <= i < lines.len() ==> record_of(
            parse_timestamp,
            now_micros,
            body,
            lines[i],
            window,
            records[i],
        ),
        0 <= i < lines.len() ==> (records[i] is ParseError <==> !(simd_reading(
            body.subrange(lines[i].start, lines[i].end),
        ) matches Some(value) && value is Object)),
{
    if 0 <= i < lines.len() {
        assert(record_of(parse_timestamp, now_micros, body, lines[i], window, records[i]));
        law_records_are_read(parse_timestamp, now_micros, body, lines[i], window, records[i]);
    }
}

} // verus!
