//! Scanning the body of a bulk request: its lines, which of them are metadata and which are
//! records, and the streams to which the records belong.

use crate::json::{parse_json, serde_reading, Json};
use crate::metadata::{
    asked_first, asks_for, fast_metadata, law_objects_are_read, law_plain_line_says_what_its_object_says,
    metadata_view, names_stream, object_metadata, parse_bulk_index, parse_bulk_index_fast,
    plain_metadata, Metadata,
};
use crate::plain::{
    has_member, member_at, member_text, members_json, members_text, plain_text, writes,
    PlainObject,
};
use crate::response::{
    failed_item, or_empty, BulkResponse, BulkResponseError, BulkResponseItem, ResponseView, SHARD,
};
use crate::text::{
    all_white, law_only_white_space_is_cut, law_white_space_is_cut, lists_text, lossy_text,
    option_view, same_bytes, same_text, text_of, trim, utf8_lossy, views,
};
use vstd::prelude::*;
use vstd::slice::slice_subrange;
use vstd::utf8::{encode_utf8, encode_utf8_decode_utf8, encode_utf8_valid_utf8};

verus! {

pub const NEWLINE: u8 = 10;

pub const CARRIAGE_RETURN: u8 = 13;

/// The type of stream to which bulk requests write.
pub const STREAM_TYPE: &'static str = "logs";

/// Calls `memchr::memchr`. Believed of it, as its documentation says: it returns the place of
/// the first occurrence of the byte, or nothing where the byte does not occur.
#[verifier::external_body]
fn find_byte(needle: u8, haystack: &[u8]) -> (result: Option<usize>)
    ensures
        match result {
            Some(i) => {
                &&& i < haystack@.len()
                &&& haystack@[i as int] == needle
                &&& forall|j: int| 0 <= j < i ==> haystack@[j] != needle
            },
            None => forall|j: int| 0 <= j < haystack@.len() ==> haystack@[j] != needle,
        },
{
    memchr::memchr(needle, haystack)
}

/// Where the line that begins at `pos` ends: at the next newline, or at the end of the body.
pub open spec fn newline_from(body: Seq<u8>, pos: int) -> int
    decreases body.len() - pos,
{
    if pos >= body.len() || body[pos] == NEWLINE {
        pos
    } else {
        newline_from(body, pos + 1)
    }
}

/// The end of a line without the line-end characters in front of it.
pub open spec fn content_end(body: Seq<u8>, start: int, end: int) -> int
    decreases end - start,
{
    if end > start && (body[end - 1] == NEWLINE || body[end - 1] == CARRIAGE_RETURN) {
        content_end(body, start, end - 1)
    } else {
        end
    }
}

/// The lines of a body from `pos` on, each as the range of its content; a line without content
/// is left out.
pub open spec fn lines_from(body: Seq<u8>, pos: int) -> Seq<(int, int)>
    decreases body.len() + 1 - pos,
    when 0 <= pos
{
    if pos >= body.len() {
        Seq::empty()
    } else {
        proof {
            lemma_newline(body, pos);
        }
        let newline = newline_from(body, pos);
        let end = content_end(body, pos, newline);
        let rest = lines_from(body, newline + 1);
        if end > pos {
            seq![(pos, end)] + rest
        } else {
            rest
        }
    }
}

/// The lines of a body.
pub open spec fn body_lines(body: Seq<u8>) -> Seq<(int, int)> {
    lines_from(body, 0)
}

/// A line ends at a newline or at the end of the body, and holds no newline.
pub proof fn lemma_newline(body: Seq<u8>, pos: int)
    requires
        0 <= pos <= body.len(),
    ensures
        pos <= newline_from(body, pos) <= body.len(),
        newline_from(body, pos) < body.len() ==> body[newline_from(body, pos)] == NEWLINE,
        forall|i: int| pos <= i < newline_from(body, pos) ==> body[i] != NEWLINE,
    decreases body.len() - pos,
{
    if pos >= body.len() || body[pos] == NEWLINE {
    } else {
        lemma_newline(body, pos + 1);
    }
}

proof fn lemma_newline_is(body: Seq<u8>, pos: int, newline: int)
    requires
        0 <= pos <= newline <= body.len(),
        newline < body.len() ==> body[newline] == NEWLINE,
        forall|i: int| pos <= i < newline ==> body[i] != NEWLINE,
    ensures
        newline_from(body, pos) == newline,
    decreases newline - pos,
{
    if pos < newline {
        lemma_newline_is(body, pos + 1, newline);
    }
}

proof fn lemma_content_end(body: Seq<u8>, start: int, end: int)
    requires
        0 <= start <= end <= body.len(),
    ensures
        start <= content_end(body, start, end) <= end,
        content_end(body, start, end) > start ==> {
            let last = body[content_end(body, start, end) - 1];
            last != NEWLINE && last != CARRIAGE_RETURN
        },
    decreases end - start,
{
    if end > start && (body[end - 1] == NEWLINE || body[end - 1] == CARRIAGE_RETURN) {
        lemma_content_end(body, start, end - 1);
    }
}

/// A line that holds a record: where it stands in the body, to which stream it goes and under
/// which document id.
#[derive(Debug, PartialEq)]
pub struct DataLine {
    pub start: usize,
    pub end: usize,
    pub stream_idx: usize,
    pub doc_id: Option<String>,
}

/// What a `DataLine` says.
pub struct DataLineView {
    pub start: int,
    pub end: int,
    pub stream_idx: int,
    pub doc_id: Option<Seq<char>>,
}

impl View for DataLine {
    type V = DataLineView;

    open spec fn view(&self) -> DataLineView {
        DataLineView {
            start: self.start as int,
            end: self.end as int,
            stream_idx: self.stream_idx as int,
            doc_id: option_view(self.doc_id),
        }
    }
}

/// What a list of data lines says.
pub open spec fn data_view(lines: Seq<DataLine>) -> Seq<DataLineView> {
    lines.map_values(|line: DataLine| line@)
}

/// What a list of streams says: each by its name and the action.
pub open spec fn streams_view(streams: Seq<(String, String)>) -> Seq<(Seq<char>, Seq<char>)> {
    streams.map_values(|stream: (String, String)| (stream.0@, stream.1@))
}

/// What a scan goes by: the organisation, whether names of streams are taken as they stand, and
/// the keys of the streams that take no records.
#[derive(Debug, PartialEq)]
pub struct ScanSettings {
    pub org_id: String,
    pub skip_formatting_stream_name: bool,
    pub blocked_streams: Vec<String>,
}

/// What `ScanSettings` say.
pub struct SettingsView {
    pub org_id: Seq<char>,
    pub skip_formatting: bool,
    pub blocked: Seq<Seq<char>>,
}

impl View for ScanSettings {
    type V = SettingsView;

    open spec fn view(&self) -> SettingsView {
        SettingsView {
            org_id: self.org_id@,
            skip_formatting: self.skip_formatting_stream_name,
            blocked: views(self.blocked_streams@),
        }
    }
}

/// How far a scan has come.
#[derive(Debug, PartialEq)]
pub struct BulkScan {
    response: BulkResponse,
    streams: Vec<(String, String)>,
    data_lines: Vec<DataLine>,
    action: String,
    stream_name: String,
    doc_id: Option<String>,
    skipped: Vec<String>,
    last_start: usize,
    last_end: usize,
    accepted_action: String,
    accepted_name: String,
    accepted_id: Option<String>,
    current: usize,
    next_is_data: bool,
}

/// What a `BulkScan` says: the answer so far, the streams of the records, each with its action,
/// and the lines that hold records; then the action, the stream and the document id that were
/// read last, the blocked streams that were passed over, the metadata line that was accepted last
/// and what it said, the stream of the next record, and whether the next line is one.
pub struct ScanView {
    pub response: ResponseView,
    pub streams: Seq<(Seq<char>, Seq<char>)>,
    pub data_lines: Seq<DataLineView>,
    pub action: Seq<char>,
    pub stream_name: Seq<char>,
    pub doc_id: Option<Seq<char>>,
    pub skipped: Seq<Seq<char>>,
    pub last: (int, int),
    pub accepted: Metadata,
    pub current: int,
    pub next_is_data: bool,
}

impl View for BulkScan {
    type V = ScanView;

    closed spec fn view(&self) -> ScanView {
        ScanView {
            response: self.response@,
            streams: streams_view(self.streams@),
            data_lines: data_view(self.data_lines@),
            action: self.action@,
            stream_name: self.stream_name@,
            doc_id: option_view(self.doc_id),
            skipped: views(self.skipped@),
            last: (self.last_start as int, self.last_end as int),
            accepted: Metadata {
                action: self.accepted_action@,
                index: self.accepted_name@,
                doc_id: option_view(self.accepted_id),
            },
            current: self.current as int,
            next_is_data: self.next_is_data,
        }
    }
}

/// A scan that has read nothing.
pub open spec fn scan_start() -> ScanView {
    ScanView {
        response: ResponseView { took: 0, errors: false, items: Seq::empty() },
        streams: Seq::empty(),
        data_lines: Seq::empty(),
        action: Seq::empty(),
        stream_name: Seq::empty(),
        doc_id: None,
        skipped: Seq::empty(),
        last: (0, 0),
        accepted: Metadata { action: Seq::empty(), index: Seq::empty(), doc_id: None },
        current: 0,
        next_is_data: false,
    }
}

/// What a line says where metadata is due.
pub enum LineReading {
    /// It names an action and a stream.
    Named(Metadata),
    /// It is an object that names none.
    Unknown,
    /// It is no JSON, for a reason.
    NotJson(serde_json::Error),
    /// It is JSON, but no object.
    NotObject,
}

/// What a line says by what it holds as JSON.
pub open spec fn json_metadata(value: Result<Json, serde_json::Error>) -> LineReading {
    match value {
        Ok(Json::Object(object)) => match object_metadata(object) {
            Some(metadata) => LineReading::Named(metadata),
            None => LineReading::Unknown,
        },
        Ok(_) => LineReading::NotObject,
        Err(error) => LineReading::NotJson(error),
    }
}

/// What a line says: at sight where it writes its object plainly, else as JSON.
pub open spec fn read_metadata(line: Seq<u8>) -> LineReading {
    match fast_metadata(line) {
        Some(metadata) => LineReading::Named(metadata),
        None => json_metadata(serde_reading(line)),
    }
}

/// A name that no stream may have.
pub open spec fn invalid_name(name: Seq<char>) -> bool {
    name.len() == 0 || name == "_"@ || name == "/"@
}

/// Whether no stream may have the name.
pub fn is_invalid_stream_name(name: &str) -> (result: bool)
    ensures
        result == invalid_name(name@),
{
    name.is_empty() || same_text(name, "_") || same_text(name, "/")
}

/// The key of a stream of an organisation.
pub open spec fn stream_key(org_id: Seq<char>, name: Seq<char>) -> Seq<char> {
    org_id + "/"@ + STREAM_TYPE@ + "/"@ + name
}

/// The stream of a name is among the blocked ones.
pub open spec fn is_blocked(settings: SettingsView, name: Seq<char>) -> bool {
    settings.blocked.contains(stream_key(settings.org_id, name))
}

/// What is said of a line that names no valid stream.
pub open spec fn invalid_name_message(line: Seq<u8>) -> Seq<char> {
    "Invalid stream name: "@ + lossy_text(line)
}

/// The scan after a metadata line of an invalid stream: it is answered with an error.
pub open spec fn refuse_name(scan: ScanView, line: Seq<u8>) -> ScanView {
    ScanView {
        response: scan.response.with_errors().with_item(
            scan.action,
            failed_item(
                scan.stream_name,
                or_empty(scan.doc_id),
                invalid_name_message(line),
                invalid_name_message(line),
                None,
            ),
        ),
        ..scan
    }
}

/// The stream of the next record is not the one that was read last.
pub open spec fn needs_stream(scan: ScanView) -> bool {
    scan.streams.len() == 0 || scan.streams[scan.current] != (scan.stream_name, scan.action)
}

/// The scan after a metadata line that it accepts: the next line is a record of its stream.
pub open spec fn accept_stream(scan: ScanView, range: (int, int)) -> ScanView {
    let noted = ScanView {
        last: range,
        accepted: Metadata {
            action: scan.action,
            index: scan.stream_name,
            doc_id: scan.doc_id,
        },
        next_is_data: true,
        ..scan
    };
    if needs_stream(scan) {
        ScanView {
            current: scan.streams.len() as int,
            streams: scan.streams.push((scan.stream_name, scan.action)),
            ..noted
        }
    } else {
        noted
    }
}

/// The scan after a metadata line of a stream whose name has its final form. The line of a blocked
/// stream is passed over.
pub open spec fn enter_stream(
    scan: ScanView,
    range: (int, int),
    settings: SettingsView,
) -> ScanView {
    if is_blocked(settings, scan.stream_name) {
        ScanView { skipped: scan.skipped.push(scan.stream_name), ..scan }
    } else {
        accept_stream(scan, range)
    }
}

/// The scan after a line that says `metadata`; `formatted` is the stream's name in its final
/// form, where names are given one.
pub open spec fn note_metadata(
    scan: ScanView,
    line: Seq<u8>,
    range: (int, int),
    metadata: Metadata,
    settings: SettingsView,
    formatted: Seq<char>,
) -> ScanView {
    let read = ScanView {
        action: metadata.action,
        stream_name: metadata.index,
        doc_id: metadata.doc_id,
        ..scan
    };
    if invalid_name(metadata.index) {
        refuse_name(read, line)
    } else if settings.skip_formatting {
        enter_stream(read, range, settings)
    } else {
        enter_stream(ScanView { stream_name: formatted, ..read }, range, settings)
    }
}

/// The content of a line.
pub open spec fn line_at(body: Seq<u8>, range: (int, int)) -> Seq<u8> {
    body.subrange(range.0, range.1)
}

/// The line repeats the metadata line that was accepted last.
pub open spec fn repeats(scan: ScanView, body: Seq<u8>, range: (int, int)) -> bool {
    scan.last.1 > scan.last.0 && line_at(body, range) == line_at(body, scan.last)
}

/// The scan after a line that repeats the metadata line that was accepted last: it says again what
/// that line said.
pub open spec fn repeat_accepted(scan: ScanView) -> ScanView {
    ScanView {
        action: scan.accepted.action,
        stream_name: scan.accepted.index,
        doc_id: scan.accepted.doc_id,
        next_is_data: true,
        ..scan
    }
}

/// What a scan comes to: it goes on, or it stops at a metadata line that is no JSON, or JSON
/// but no object, with what it had found before.
pub enum ScanOutcome {
    Next(ScanView),
    NotJson(ScanView, serde_json::Error),
    NotObject(ScanView),
}

/// The scan after one more line.
pub open spec fn scan_line(
    scan: ScanView,
    body: Seq<u8>,
    range: (int, int),
    settings: SettingsView,
    formatted: Seq<char>,
) -> ScanOutcome {
    if scan.next_is_data {
        ScanOutcome::Next(
            ScanView {
                next_is_data: false,
                data_lines: scan.data_lines.push(
                    DataLineView {
                        start: range.0,
                        end: range.1,
                        stream_idx: scan.current,
                        doc_id: scan.doc_id,
                    },
                ),
                ..scan
            },
        )
    } else if repeats(scan, body, range) {
        ScanOutcome::Next(repeat_accepted(scan))
    } else {
        match read_metadata(line_at(body, range)) {
            LineReading::Named(metadata) => ScanOutcome::Next(
                note_metadata(scan, line_at(body, range), range, metadata, settings, formatted),
            ),
            LineReading::Unknown => ScanOutcome::Next(scan),
            LineReading::NotJson(error) => ScanOutcome::NotJson(scan, error),
            LineReading::NotObject => ScanOutcome::NotObject(scan),
        }
    }
}

/// The name that is brought into its final form at a line, if one is.
pub open spec fn name_to_format(
    scan: ScanView,
    body: Seq<u8>,
    range: (int, int),
    settings: SettingsView,
) -> Option<Seq<char>> {
    if scan.next_is_data || repeats(scan, body, range) || settings.skip_formatting {
        None
    } else {
        match read_metadata(line_at(body, range)) {
            LineReading::Named(metadata) => if invalid_name(metadata.index) {
                None
            } else {
                Some(metadata.index)
            },
            _ => None,
        }
    }
}

/// The scan after some lines; `formatted` holds for each line the final form of its stream's
/// name.
pub open spec fn scan_run(
    scan: ScanView,
    body: Seq<u8>,
    lines: Seq<(int, int)>,
    settings: SettingsView,
    formatted: Seq<Seq<char>>,
) -> ScanOutcome
    decreases lines.len(),
{
    if lines.len() == 0 {
        ScanOutcome::Next(scan)
    } else {
        match scan_run(scan, body, lines.drop_last(), settings, formatted.drop_last()) {
            ScanOutcome::Next(before) => scan_line(
                before,
                body,
                lines.last(),
                settings,
                formatted.last(),
            ),
            stopped => stopped,
        }
    }
}

/// `formatted` is what the formatting function may give for a name.
pub open spec fn formats<F: Fn(String) -> String>(
    format: F,
    name: Seq<char>,
    formatted: Seq<char>,
) -> bool {
    exists|x: String, y: String| x@ == name && y@ == formatted && #[trigger] format.ensures((x,), y)
}

/// Each final form is what the formatting function may give for the name that its line has it
/// format.
pub open spec fn formatted_by<F: Fn(String) -> String>(
    format: F,
    scan: ScanView,
    body: Seq<u8>,
    lines: Seq<(int, int)>,
    settings: SettingsView,
    formatted: Seq<Seq<char>>,
) -> bool
    decreases lines.len(),
{
    &&& formatted.len() == lines.len()
    &&& lines.len() > 0 ==> {
        &&& formatted_by(
            format,
            scan,
            body,
            lines.drop_last(),
            settings,
            formatted.drop_last(),
        )
        &&& match scan_run(scan, body, lines.drop_last(), settings, formatted.drop_last()) {
            ScanOutcome::Next(before) => match name_to_format(
                before,
                body,
                lines.last(),
                settings,
            ) {
                Some(name) => formats(format, name, formatted.last()),
                None => true,
            },
            _ => true,
        }
    }
}

/// Why a body cannot be scanned: a metadata line that is no JSON, or JSON but no object.
#[derive(Debug)]
pub enum ScanError {
    NotJson(serde_json::Error),
    NotObject,
}

/// The result of a scan agrees with what it came to.
pub open spec fn scan_result(
    outcome: ScanOutcome,
    result: Result<BulkScan, (BulkScan, ScanError)>,
) -> bool {
    match (outcome, result) {
        (ScanOutcome::Next(scan), Ok(found)) => found@ == scan,
        (ScanOutcome::NotJson(scan, error), Err((found, reason))) => found@ == scan && reason
            == ScanError::NotJson(error),
        (ScanOutcome::NotObject(scan), Err((found, reason))) => found@ == scan && reason
            == ScanError::NotObject,
        _ => false,
    }
}

/// The stream of the next record is among the streams, once there are any, and the metadata
/// line that was accepted last lies in the body.
pub open spec fn scan_wf(scan: ScanView, body: Seq<u8>) -> bool {
    &&& 0 <= scan.current
    &&& scan.streams.len() > 0 ==> scan.current < scan.streams.len()
    &&& 0 <= scan.last.0 <= scan.last.1 <= body.len()
}

impl BulkScan {
    /// What a scan has found: the answer so far, the streams of the records, each with its
    /// action, the lines that hold records, the action that was read last, and the blocked streams
    /// that were passed over.
    pub fn into_parts(self) -> (result: (
        BulkResponse,
        Vec<(String, String)>,
        Vec<DataLine>,
        String,
        Vec<String>,
    ))
        ensures
            result.0@ == self@.response,
            streams_view(result.1@) == self@.streams,
            data_view(result.2@) == self@.data_lines,
            result.3@ == self@.action,
            views(result.4@) == self@.skipped,
    {
        (self.response, self.streams, self.data_lines, self.action, self.skipped)
    }

    fn start() -> (result: BulkScan)
        ensures
            result@ == scan_start(),
    {
        let result = BulkScan {
            response: BulkResponse::new(),
            streams: Vec::new(),
            data_lines: Vec::new(),
            action: String::new(),
            stream_name: String::new(),
            doc_id: None,
            skipped: Vec::new(),
            last_start: 0,
            last_end: 0,
            accepted_action: String::new(),
            accepted_name: String::new(),
            accepted_id: None,
            current: 0,
            next_is_data: false,
        };
        assert(result@.streams =~= Seq::empty());
        assert(result@.data_lines =~= Seq::empty());
        assert(result@.skipped =~= Seq::empty());
        result
    }

    fn refuse(&mut self, line: &[u8])
        ensures
            final(self)@ == refuse_name(old(self)@, line@),
    {
        let mut message = "Invalid stream name: ".to_string();
        let shown = utf8_lossy(line);
        message.append(shown.as_str());
        let doc_id = match &self.doc_id {
            Some(id) => id.clone(),
            None => String::new(),
        };
        let error = BulkResponseError::new(
            message.clone(),
            self.stream_name.clone(),
            message,
            SHARD.to_string(),
        );
        let item = BulkResponseItem::new_failed(
            self.stream_name.clone(),
            doc_id,
            error,
            None,
            self.stream_name.clone(),
        );
        self.response.errors = true;
        let action = self.action.clone();
        self.response.push_item(action, item);
    }

    fn accept(&mut self, start: usize, end: usize)
        requires
            old(self)@.streams.len() > 0 ==> old(self)@.current < old(self)@.streams.len(),
        ensures
            final(self)@ == accept_stream(old(self)@, (start as int, end as int)),
    {
        self.last_start = start;
        self.last_end = end;
        self.accepted_action = self.action.clone();
        self.accepted_name = self.stream_name.clone();
        self.accepted_id = copy_id(&self.doc_id);
        let needs_new = self.streams.len() == 0 || !same_text(
            self.streams[self.current].0.as_str(),
            self.stream_name.as_str(),
        ) || !same_text(self.streams[self.current].1.as_str(), self.action.as_str());
        if needs_new {
            self.current = self.streams.len();
            self.streams.push((self.stream_name.clone(), self.action.clone()));
            assert(streams_view(self.streams@) =~= old(self)@.streams.push(
                (self.stream_name@, self.action@),
            ));
        }
        self.next_is_data = true;
    }

    fn enter(&mut self, start: usize, end: usize, settings: &ScanSettings)
        requires
            old(self)@.streams.len() > 0 ==> old(self)@.current < old(self)@.streams.len(),
        ensures
            final(self)@ == enter_stream(old(self)@, (start as int, end as int), settings@),
    {
        let key = key_of(settings.org_id.as_str(), self.stream_name.as_str());
        if lists_text(&settings.blocked_streams, key.as_str()) {
            self.skipped.push(self.stream_name.clone());
            assert(views(self.skipped@) =~= old(self)@.skipped.push(self.stream_name@));
            return ;
        }
        self.accept(start, end);
    }

    /// Takes in a metadata line that says an action, a stream and perhaps a document id.
    /// `format_stream_name` gives the final form of the stream's name, unless names are taken as
    /// they stand.
    fn note<F: Fn(String) -> String>(
        &mut self,
        line: &[u8],
        start: usize,
        end: usize,
        metadata: (&str, &str, Option<&str>),
        settings: &ScanSettings,
        format_stream_name: &F,
    )
        requires
            old(self)@.streams.len() > 0 ==> old(self)@.current < old(self)@.streams.len(),
            forall|name: String| format_stream_name.requires((name,)),
        ensures
            exists|formatted: Seq<char>|
                {
                    &&& invalid_name(metadata.1@) || settings@.skip_formatting || formats(
                        *format_stream_name,
                        metadata.1@,
                        formatted,
                    )
                    &&& final(self)@ == #[trigger] note_metadata(
                        old(self)@,
                        line@,
                        (start as int, end as int),
                        metadata_view(Some(metadata))->0,
                        settings@,
                        formatted,
                    )
                },
    {
        self.action = metadata.0.to_string();
        self.stream_name = metadata.1.to_string();
        self.doc_id = match metadata.2 {
            Some(id) => Some(id.to_string()),
            None => None,
        };
        if is_invalid_stream_name(self.stream_name.as_str()) {
            self.refuse(line);
            assert(self@ == note_metadata(
                old(self)@,
                line@,
                (start as int, end as int),
                metadata_view(Some(metadata))->0,
                settings@,
                Seq::empty(),
            ));
            return ;
        }
        let ghost mut formatted: Seq<char> = Seq::empty();
        if !settings.skip_formatting_stream_name {
            let name = self.stream_name.clone();
            let final_name = format_stream_name(name);
            proof {
                assert(name@ == metadata.1@);
                assert(formats(*format_stream_name, metadata.1@, final_name@));
                formatted = final_name@;
            }
            self.stream_name = final_name;
        }
        self.enter(start, end, settings);
        assert(self@ == note_metadata(
            old(self)@,
            line@,
            (start as int, end as int),
            metadata_view(Some(metadata))->0,
            settings@,
            formatted,
        ));
    }
}

/// The result of a step agrees with what it came to.
pub open spec fn step_result(
    outcome: ScanOutcome,
    after: ScanView,
    result: Result<(), ScanError>,
) -> bool {
    match outcome {
        ScanOutcome::Next(scan) => result is Ok && after == scan,
        ScanOutcome::NotJson(scan, error) => result == Err::<(), ScanError>(
            ScanError::NotJson(error),
        ) && after == scan,
        ScanOutcome::NotObject(scan) => result == Err::<(), ScanError>(ScanError::NotObject)
            && after == scan,
    }
}

/// The final form that a line's name has is what the formatting function may give for it.
pub open spec fn line_formatted<F: Fn(String) -> String>(
    format: F,
    scan: ScanView,
    body: Seq<u8>,
    range: (int, int),
    settings: SettingsView,
    formatted: Seq<char>,
) -> bool {
    match name_to_format(scan, body, range, settings) {
        Some(name) => formats(format, name, formatted),
        None => true,
    }
}

impl BulkScan {
    /// Takes in one more line of a body.
    fn step<F: Fn(String) -> String>(
        &mut self,
        body: &[u8],
        start: usize,
        end: usize,
        settings: &ScanSettings,
        format_stream_name: &F,
    ) -> (result: Result<(), ScanError>)
        requires
            start <= end <= body@.len(),
            scan_wf(old(self)@, body@),
            forall|name: String| format_stream_name.requires((name,)),
        ensures
            exists|formatted: Seq<char>| #[trigger]
                line_formatted(
                    *format_stream_name,
                    old(self)@,
                    body@,
                    (start as int, end as int),
                    settings@,
                    formatted,
                ) && step_result(
                    scan_line(
                        old(self)@,
                        body@,
                        (start as int, end as int),
                        settings@,
                        formatted,
                    ),
                    final(self)@,
                    result,
                ),
    {
        let ghost range = (start as int, end as int);
        let ghost none: Seq<char> = Seq::empty();
        let line = slice_subrange(body, start, end);
        if self.next_is_data {
            self.next_is_data = false;
            let doc_id = copy_id(&self.doc_id);
            self.data_lines.push(DataLine { start, end, stream_idx: self.current, doc_id });
            assert(data_view(self.data_lines@) =~= old(self)@.data_lines.push(
                self.data_lines@.last()@,
            ));
            assert(line_formatted(*format_stream_name, old(self)@, body@, range, settings@, none));
            return Ok(());
        }
        if self.last_end > self.last_start && same_bytes(
            line,
            slice_subrange(body, self.last_start, self.last_end),
        ) {
            self.action = self.accepted_action.clone();
            self.stream_name = self.accepted_name.clone();
            self.doc_id = copy_id(&self.accepted_id);
            self.next_is_data = true;
            assert(line_formatted(*format_stream_name, old(self)@, body@, range, settings@, none));
            return Ok(());
        }
        match parse_bulk_index_fast(line) {
            Some(metadata) => {
                self.note(line, start, end, metadata, settings, format_stream_name);
                proof {
                    lemma_noted(
                        *format_stream_name,
                        *old(self),
                        *self,
                        body@,
                        range,
                        settings@,
                        metadata_view(Some(metadata))->0,
                    );
                }
                Ok(())
            },
            None => match parse_json(line) {
                Ok(value) => {
                    if value.as_object().is_none() {
                        assert(line_formatted(
                            *format_stream_name,
                            old(self)@,
                            body@,
                            range,
                            settings@,
                            none,
                        ));
                        return Err(ScanError::NotObject);
                    }
                    match parse_bulk_index(&value) {
                        Some(metadata) => {
                            self.note(line, start, end, metadata, settings, format_stream_name);
                            proof {
                                lemma_noted(
                                    *format_stream_name,
                                    *old(self),
                                    *self,
                                    body@,
                                    range,
                                    settings@,
                                    metadata_view(Some(metadata))->0,
                                );
                            }
                        },
                        None => {
                            assert(line_formatted(
                                *format_stream_name,
                                old(self)@,
                                body@,
                                range,
                                settings@,
                                none,
                            ));
                        },
                    }
                    Ok(())
                },
                Err(error) => {
                    assert(line_formatted(
                        *format_stream_name,
                        old(self)@,
                        body@,
                        range,
                        settings@,
                        none,
                    ));
                    Err(ScanError::NotJson(error))
                },
            },
        }
    }
}

/// A line that names an action and a stream was taken in.
proof fn lemma_noted<F: Fn(String) -> String>(
    format: F,
    before: BulkScan,
    after: BulkScan,
    body: Seq<u8>,
    range: (int, int),
    settings: SettingsView,
    metadata: Metadata,
)
    requires
        !before@.next_is_data,
        !repeats(before@, body, range),
        read_metadata(line_at(body, range)) == LineReading::Named(metadata),
        exists|formatted: Seq<char>|
            {
                &&& invalid_name(metadata.index) || settings.skip_formatting || formats(
                    format,
                    metadata.index,
                    formatted,
                )
                &&& after@ == #[trigger] note_metadata(
                    before@,
                    line_at(body, range),
                    range,
                    metadata,
                    settings,
                    formatted,
                )
            },
    ensures
        exists|formatted: Seq<char>| #[trigger]
            line_formatted(format, before@, body, range, settings, formatted) && scan_line(
                before@,
                body,
                range,
                settings,
                formatted,
            ) == ScanOutcome::Next(after@),
{
    let formatted = choose|formatted: Seq<char>|
        {
            &&& invalid_name(metadata.index) || settings.skip_formatting || formats(
                format,
                metadata.index,
                formatted,
            )
            &&& after@ == #[trigger] note_metadata(
                before@,
                line_at(body, range),
                range,
                metadata,
                settings,
                formatted,
            )
        };
    assert(line_formatted(format, before@, body, range, settings, formatted));
}

/// A scan keeps to its streams and its body.
proof fn lemma_line_keeps_wf(
    scan: ScanView,
    body: Seq<u8>,
    range: (int, int),
    settings: SettingsView,
    formatted: Seq<char>,
)
    requires
        scan_wf(scan, body),
        0 <= range.0 <= range.1 <= body.len(),
    ensures
        scan_line(scan, body, range, settings, formatted) matches ScanOutcome::Next(after)
            ==> scan_wf(after, body),
{
}

/// One more line, with the final form of its name.
proof fn lemma_scan_step<F: Fn(String) -> String>(
    format: F,
    scan: ScanView,
    body: Seq<u8>,
    lines: Seq<(int, int)>,
    settings: SettingsView,
    formatted: Seq<Seq<char>>,
    range: (int, int),
    name: Seq<char>,
)
    requires
        formatted_by(format, scan, body, lines, settings, formatted),
        scan_run(scan, body, lines, settings, formatted) matches ScanOutcome::Next(before)
            ==> line_formatted(format, before, body, range, settings, name),
    ensures
        formatted_by(format, scan, body, lines.push(range), settings, formatted.push(name)),
        scan_run(scan, body, lines.push(range), settings, formatted.push(name)) == (match scan_run(
            scan,
            body,
            lines,
            settings,
            formatted,
        ) {
            ScanOutcome::Next(before) => scan_line(before, body, range, settings, name),
            stopped => stopped,
        }),
{
    assert(lines.push(range).drop_last() =~= lines);
    assert(formatted.push(name).drop_last() =~= formatted);
}

/// Where a scan has stopped, further lines change nothing.
proof fn lemma_scan_stopped<F: Fn(String) -> String>(
    format: F,
    scan: ScanView,
    body: Seq<u8>,
    lines: Seq<(int, int)>,
    settings: SettingsView,
    formatted: Seq<Seq<char>>,
    rest: Seq<(int, int)>,
)
    requires
        formatted_by(format, scan, body, lines, settings, formatted),
        !(scan_run(scan, body, lines, settings, formatted) is Next),
    ensures
        exists|all: Seq<Seq<char>>| #[trigger]
            formatted_by(format, scan, body, lines + rest, settings, all) && scan_run(
                scan,
                body,
                lines + rest,
                settings,
                all,
            ) == scan_run(scan, body, lines, settings, formatted),
    decreases rest.len(),
{
    if rest.len() == 0 {
        assert(lines + rest =~= lines);
    } else {
        let name: Seq<char> = Seq::empty();
        lemma_scan_step(format, scan, body, lines, settings, formatted, rest[0], name);
        lemma_scan_stopped(
            format,
            scan,
            body,
            lines.push(rest[0]),
            settings,
            formatted.push(name),
            rest.drop_first(),
        );
        assert(lines.push(rest[0]) + rest.drop_first() =~= lines + rest);
    }
}

/// Scans the body of a bulk request. `format_stream_name` gives the final form of a stream's
/// name.
pub fn scan_body<F: Fn(String) -> String>(
    body: &[u8],
    settings: &ScanSettings,
    format_stream_name: &F,
) -> (result: Result<BulkScan, (BulkScan, ScanError)>)
    requires
        forall|name: String| format_stream_name.requires((name,)),
    ensures
        exists|formatted: Seq<Seq<char>>| #[trigger]
            formatted_by(
                *format_stream_name,
                scan_start(),
                body@,
                body_lines(body@),
                settings@,
                formatted,
            ) && scan_result(
                scan_run(scan_start(), body@, body_lines(body@), settings@, formatted),
                result,
            ),
{
    let mut scan = BulkScan::start();
    let ghost mut done: Seq<(int, int)> = Seq::empty();
    let ghost mut formatted: Seq<Seq<char>> = Seq::empty();
    let mut pos: usize = 0;
    let ghost mut next: int = 0;
    assert(done + lines_from(body@, 0) =~= body_lines(body@));
    while pos < body.len()
        invariant
            pos <= body@.len(),
            next == pos || (pos == body@.len() && next == pos + 1),
            done + lines_from(body@, next) == body_lines(body@),
            scan_wf(scan@, body@),
            forall|name: String| format_stream_name.requires((name,)),
            formatted_by(*format_stream_name, scan_start(), body@, done, settings@, formatted),
            scan_run(scan_start(), body@, done, settings@, formatted) == ScanOutcome::Next(scan@),
        decreases body.len() - pos,
    {
        let line_start = pos;
        let rest = slice_subrange(body, pos, body.len());
        let newline = match find_byte(NEWLINE, rest) {
            Some(i) => pos + i,
            None => body.len(),
        };
        proof {
            assert forall|i: int| line_start <= i < newline implies body@[i] != NEWLINE by {
                assert(rest@[i - line_start] == body@[i]);
            }
            assert(newline < body@.len() ==> rest@[newline - line_start] == body@[newline as int]);
            lemma_newline_is(body@, line_start as int, newline as int);
            next = newline + 1;
        }
        pos = if newline < body.len() {
            newline + 1
        } else {
            newline
        };
        let mut line_end: usize = newline;
        while line_end > line_start && (body[line_end - 1] == NEWLINE || body[line_end - 1]
            == CARRIAGE_RETURN)
            invariant
                line_start <= line_end <= body@.len(),
                content_end(body@, line_start as int, line_end as int) == content_end(
                    body@,
                    line_start as int,
                    newline as int,
                ),
            decreases line_end,
        {
            line_end -= 1;
        }
        if line_end <= line_start {
            continue ;
        }
        let ghost range = (line_start as int, line_end as int);
        let ghost after = lines_from(body@, next);
        let ghost before = scan@;
        assert(done.push(range) + after =~= body_lines(body@)) by {
            assert(lines_from(body@, line_start as int) == seq![range] + after);
            assert(done + (seq![range] + after) =~= done.push(range) + after);
        }
        let step = scan.step(body, line_start, line_end, settings, format_stream_name);
        let ghost name = choose|name: Seq<char>| #[trigger]
            line_formatted(*format_stream_name, before, body@, range, settings@, name)
                && step_result(
                scan_line(before, body@, range, settings@, name),
                scan@,
                step,
            );
        proof {
            lemma_line_keeps_wf(before, body@, range, settings@, name);
            lemma_scan_step(
                *format_stream_name,
                scan_start(),
                body@,
                done,
                settings@,
                formatted,
                range,
                name,
            );
            done = done.push(range);
            formatted = formatted.push(name);
        }
        match step {
            Ok(_) => {},
            Err(error) => {
                proof {
                    lemma_scan_stopped(
                        *format_stream_name,
                        scan_start(),
                        body@,
                        done,
                        settings@,
                        formatted,
                        after,
                    );
                }
                return Err((scan, error));
            },
        }
    }
    assert(lines_from(body@, next) =~= Seq::empty());
    assert(done =~= body_lines(body@));
    Ok(scan)
}

fn copy_id(id: &Option<String>) -> (result: Option<String>)
    ensures
        option_view(result) == option_view(*id),
{
    match id {
        Some(id) => Some(id.clone()),
        None => None,
    }
}

fn key_of(org_id: &str, name: &str) -> (result: String)
    ensures
        result@ == stream_key(org_id@, name@),
{
    let mut key = org_id.to_string();
    key.append("/");
    key.append(STREAM_TYPE);
    key.append("/");
    key.append(name);
    key
}

/// The lines of a body from `pos` on lie in the body behind one another, and each has content
/// that holds no newline and ends in no line-end character.
pub proof fn law_lines_lie_in_order(body: Seq<u8>, pos: int)
    requires
        0 <= pos,
    ensures
        forall|i: int|
            0 <= i < lines_from(body, pos).len() ==> {
                let range = #[trigger] lines_from(body, pos)[i];
                &&& pos <= range.0 < range.1 <= body.len()
                &&& forall|j: int| range.0 <= j < range.1 ==> body[j] != NEWLINE
                &&& body[range.1 - 1] != CARRIAGE_RETURN
            },
        forall|i: int, j: int|
            0 <= i < j < lines_from(body, pos).len() ==> (#[trigger] lines_from(body, pos)[i]).1 < (
            #[trigger] lines_from(body, pos)[j]).0,
    decreases body.len() + 1 - pos,
{
    if pos < body.len() {
        lemma_newline(body, pos);
        let newline = newline_from(body, pos);
        lemma_content_end(body, pos, newline);
        law_lines_lie_in_order(body, newline + 1);
        let rest = lines_from(body, newline + 1);
        let lines = lines_from(body, pos);
        let end = content_end(body, pos, newline);
        if end > pos {
            assert(lines[0] == (pos, end));
            assert forall|i: int| 1 <= i < lines.len() implies #[trigger] lines[i] == rest[i - 1] by {}
        }
    }
}

/// A scan keeps count: there are at least two lines for every record, the stream of the next
/// record is the last one, and streams behind one another differ in name or action.
pub open spec fn scan_in_step(scan: ScanView, lines: Seq<(int, int)>) -> bool {
    &&& 2 * scan.data_lines.len() + (if scan.next_is_data {
        1int
    } else {
        0
    }) <= lines.len()
    &&& scan.next_is_data ==> scan.streams.len() > 0
    &&& scan.last.1 > scan.last.0 ==> scan.streams.len() > 0
    &&& scan.streams.len() > 0 ==> scan.current == scan.streams.len() - 1
    &&& forall|i: int|
        0 <= i < scan.streams.len() - 1 ==> #[trigger] scan.streams[i] != scan.streams[i + 1]
    &&& forall|i: int|
        0 <= i < scan.data_lines.len() ==> {
            let line = #[trigger] scan.data_lines[i];
            &&& 0 <= line.stream_idx < scan.streams.len()
            &&& exists|j: int| 0 <= j < lines.len() && (line.start, line.end) == #[trigger] lines[j]
        }
    &&& forall|i: int, j: int|
        0 <= i < j < scan.data_lines.len() ==> (#[trigger] scan.data_lines[i]).stream_idx <= (
        #[trigger] scan.data_lines[j]).stream_idx
}

/// At every point of a scan, each record that was found is a line of the body and has its stream
/// among the streams, records come in the order of their streams, there are at least twice as
/// many lines as records, and streams next to one another differ.
pub proof fn law_records_follow_metadata(
    body: Seq<u8>,
    lines: Seq<(int, int)>,
    settings: SettingsView,
    formatted: Seq<Seq<char>>,
)
    requires
        formatted.len() == lines.len(),
    ensures
        scan_run(scan_start(), body, lines, settings, formatted) matches ScanOutcome::Next(scan)
            ==> scan_in_step(scan, lines),
    decreases lines.len(),
{
    if lines.len() > 0 {
        let some = lines.drop_last();
        let range = lines.last();
        law_records_follow_metadata(body, some, settings, formatted.drop_last());
        match scan_run(scan_start(), body, some, settings, formatted.drop_last()) {
            ScanOutcome::Next(before) => {
                match scan_line(before, body, range, settings, formatted.last()) {
                    ScanOutcome::Next(after) => {
                        assert forall|i: int| 0 <= i < after.data_lines.len() implies {
                            let line = #[trigger] after.data_lines[i];
                            &&& 0 <= line.stream_idx < after.streams.len()
                            &&& exists|j: int|
                                0 <= j < lines.len() && (line.start, line.end)
                                    == #[trigger] lines[j]
                        } by {
                            let line = after.data_lines[i];
                            if i < before.data_lines.len() {
                                assert(line == before.data_lines[i]);
                                let j = choose|j: int|
                                    0 <= j < some.len() && (line.start, line.end)
                                        == #[trigger] some[j];
                                assert(lines[j] == some[j]);
                            } else {
                                assert(lines[lines.len() - 1] == range);
                            }
                        }
                        assert forall|i: int| 0 <= i < after.streams.len() - 1 implies #[trigger] after.streams[i]
                            != after.streams[i + 1] by {
                            if i + 1 < before.streams.len() {
                                assert(after.streams[i] == before.streams[i]);
                                assert(after.streams[i + 1] == before.streams[i + 1]);
                            }
                        }
                    },
                    _ => {},
                }
            },
            _ => {},
        }
    }
}

/// The line behind a metadata line that names a stream is a record of that stream, under the
/// action and the document id of the metadata line, and nothing is answered.
pub proof fn law_record_goes_where_its_metadata_says(
    scan: ScanView,
    body: Seq<u8>,
    first: (int, int),
    second: (int, int),
    settings: SettingsView,
    metadata: Metadata,
    name: Seq<char>,
    ignored: Seq<char>,
)
    requires
        scan_wf(scan, body),
        !scan.next_is_data,
        !repeats(scan, body, first),
        read_metadata(line_at(body, first)) == LineReading::Named(metadata),
        !invalid_name(metadata.index),
        !is_blocked(
            settings,
            if settings.skip_formatting {
                metadata.index
            } else {
                name
            },
        ),
    ensures
        scan_line(scan, body, first, settings, name) matches ScanOutcome::Next(noted) && (scan_line(
            noted,
            body,
            second,
            settings,
            ignored,
        ) matches ScanOutcome::Next(taken) && {
            let record = taken.data_lines.last();
            &&& taken.data_lines == scan.data_lines.push(record)
            &&& (record.start, record.end) == second
            &&& record.doc_id == metadata.doc_id
            &&& 0 <= record.stream_idx < taken.streams.len()
            &&& taken.streams[record.stream_idx] == (
                if settings.skip_formatting {
                    metadata.index
                } else {
                    name
                },
                metadata.action,
            )
            &&& taken.response == scan.response
            &&& !taken.next_is_data
        }),
{
    let noted = scan_line(scan, body, first, settings, name)->Next_0;
    let taken = scan_line(noted, body, second, settings, ignored)->Next_0;
    assert(taken.data_lines =~= scan.data_lines.push(taken.data_lines.last()));
}

/// A metadata line that names no valid stream is answered by one item, which says so, and takes
/// no record: the line behind it is read as metadata again.
pub proof fn law_invalid_stream_is_answered(
    scan: ScanView,
    body: Seq<u8>,
    range: (int, int),
    settings: SettingsView,
    metadata: Metadata,
    name: Seq<char>,
)
    requires
        !scan.next_is_data,
        !repeats(scan, body, range),
        read_metadata(line_at(body, range)) == LineReading::Named(metadata),
        invalid_name(metadata.index),
    ensures
        scan_line(scan, body, range, settings, name) matches ScanOutcome::Next(refused) && {
            let message = invalid_name_message(line_at(body, range));
            &&& refused.response == scan.response.with_errors().with_item(
                metadata.action,
                failed_item(metadata.index, or_empty(metadata.doc_id), message, message, None),
            )
            &&& refused.data_lines == scan.data_lines
            &&& refused.streams == scan.streams
            &&& !refused.next_is_data
        },
{
}

/// Two scans differ at most in which of two lines they accepted last.
pub open spec fn same_but_last(a: ScanView, b: ScanView) -> bool {
    a == (ScanView { last: a.last, ..b })
}

/// What is kept of the metadata line that was accepted last is what the line says, and the stream
/// that it names is the one to which records go, and is not blocked.
pub open spec fn last_is_kept(scan: ScanView, body: Seq<u8>, settings: SettingsView) -> bool {
    scan.last.1 > scan.last.0 ==> (read_metadata(line_at(body, scan.last)) matches LineReading::Named(
        metadata,
    ) && {
        &&& metadata.action == scan.accepted.action
        &&& metadata.doc_id == scan.accepted.doc_id
        &&& settings.skip_formatting ==> metadata.index == scan.accepted.index
        &&& !invalid_name(metadata.index)
        &&& !is_blocked(settings, scan.accepted.index)
        &&& 0 <= scan.current < scan.streams.len()
        &&& scan.streams[scan.current] == (scan.accepted.index, scan.accepted.action)
    })
}

/// A scan keeps what the metadata line says that it accepted last.
proof fn lemma_last_is_kept(
    body: Seq<u8>,
    lines: Seq<(int, int)>,
    settings: SettingsView,
    formatted: Seq<Seq<char>>,
)
    requires
        formatted.len() == lines.len(),
    ensures
        scan_run(scan_start(), body, lines, settings, formatted) matches ScanOutcome::Next(scan)
            ==> last_is_kept(scan, body, settings) && 0 <= scan.current && (scan.streams.len() > 0
            ==> scan.current < scan.streams.len()),
    decreases lines.len(),
{
    if lines.len() > 0 {
        lemma_last_is_kept(body, lines.drop_last(), settings, formatted.drop_last());
    }
}

/// A metadata line that repeats the one that was accepted last has the effect that reading it anew
/// would have, whatever stands between the two.
pub proof fn law_repeat_is_reread(
    body: Seq<u8>,
    lines: Seq<(int, int)>,
    settings: SettingsView,
    formatted: Seq<Seq<char>>,
    scan: ScanView,
    range: (int, int),
    name: Seq<char>,
)
    requires
        formatted.len() == lines.len(),
        scan_run(scan_start(), body, lines, settings, formatted) == ScanOutcome::Next(scan),
        !scan.next_is_data,
        repeats(scan, body, range),
    ensures
        scan_line(scan, body, range, settings, name) matches ScanOutcome::Next(repeated) && (
        read_metadata(line_at(body, range)) matches LineReading::Named(metadata) && same_but_last(
            repeated,
            note_metadata(
                scan,
                line_at(body, range),
                range,
                metadata,
                settings,
                scan.accepted.index,
            ),
        )),
{
    lemma_last_is_kept(body, lines, settings, formatted);
}

/// No record goes to a blocked stream.
pub proof fn law_blocked_streams_take_nothing(
    body: Seq<u8>,
    lines: Seq<(int, int)>,
    settings: SettingsView,
    formatted: Seq<Seq<char>>,
)
    requires
        formatted.len() == lines.len(),
    ensures
        scan_run(scan_start(), body, lines, settings, formatted) matches ScanOutcome::Next(scan)
            ==> (forall|i: int|
            0 <= i < scan.streams.len() ==> !is_blocked(settings, (#[trigger] scan.streams[i]).0)),
    decreases lines.len(),
{
    if lines.len() > 0 {
        law_blocked_streams_take_nothing(
            body,
            lines.drop_last(),
            settings,
            formatted.drop_last(),
        );
    }
}

/// The line writes the object plainly, between white space.
pub open spec fn written_plainly(
    line: Seq<u8>,
    form: PlainObject,
    front: Seq<char>,
    back: Seq<char>,
) -> bool {
    &&& form.wf()
    &&& all_white(front)
    &&& all_white(back)
    &&& text_of(line) == Some(front + form.text() + back)
}

/// The line holds the object: it writes it plainly, or it is read so as JSON.
pub open spec fn line_holds(line: Seq<u8>, object: Map<Seq<char>, Json>) -> bool {
    ||| serde_reading(line) == Ok::<Json, serde_json::Error>(Json::Object(object))
    ||| exists|form: PlainObject, front: Seq<char>, back: Seq<char>| #[trigger]
        written_plainly(line, form, front, back) && object == form.object()
}

/// What a line says where metadata is due is what the object asks for that it holds. It says
/// nothing only where the object that is read in it names no stream under `create`, `index` or
/// `update`, and it is refused only where it is no JSON, for the reason that is given, or JSON but
/// no object.
pub proof fn law_lines_say_what_they_hold(line: Seq<u8>)
    ensures
        match read_metadata(line) {
            LineReading::Named(metadata) => {
                &&& exists|object: Map<Seq<char>, Json>| #[trigger]
                    line_holds(line, object) && asks_for(object, metadata) && asked_first(
                        object,
                        metadata.action,
                    )
                &&& metadata.action == "create"@ || metadata.action == "index"@ || metadata.action
                    == "update"@
            },
            LineReading::Unknown => serde_reading(line) matches Ok(Json::Object(object)) && {
                &&& !names_stream(object, "create"@)
                &&& !names_stream(object, "index"@)
                &&& !names_stream(object, "update"@)
            },
            LineReading::NotJson(error) => serde_reading(line) == Err::<Json, serde_json::Error>(
                error,
            ),
            LineReading::NotObject => serde_reading(line) matches Ok(value) && !(value is Object),
        },
{
    match fast_metadata(line) {
        Some(metadata) => {
            let text = text_of(line)->Some_0;
            let form = choose|form: PlainObject| writes(trim(text), form);
            law_only_white_space_is_cut(text);
            let (front, back) = choose|front: Seq<char>, back: Seq<char>|
                #![trigger all_white(front), all_white(back)]
                all_white(front) && all_white(back) && text == front + trim(text) + back;
            assert(written_plainly(line, form, front, back));
            assert(line_holds(line, form.object()));
            law_objects_are_read(form.object());
        },
        None => {
            if let Ok(Json::Object(object)) = serde_reading(line) {
                assert(line_holds(line, object));
                law_objects_are_read(object);
            }
        },
    }
}

/// What the object of some members holds under a key.
proof fn lemma_member_json(form: PlainObject, i: int)
    requires
        form.wf(),
        0 <= i < form.members.len(),
    ensures
        members_json(form.members).contains_key(form.members[i].0),
        members_json(form.members)[form.members[i].0] == Json::String(form.members[i].1),
{
    let key = form.members[i].0;
    assert(member_at(form.members, key, i));
    let k = choose|k: int| member_at(form.members, key, k);
    if k < i {
        assert(form.members[k].0 != form.members[i].0);
    } else if i < k {
        assert(form.members[i].0 != form.members[k].0);
    }
}

/// A line whose text plainly writes an object under `create`, `index` or `update`, with white space
/// around it or without, names the action, the stream and the document id that the object has,
/// whatever else it has.
pub proof fn law_plain_line_names_its_stream(
    front: Seq<char>,
    form: PlainObject,
    back: Seq<char>,
    i: int,
)
    requires
        all_white(front),
        all_white(back),
        form.wf(),
        form.key == "create"@ || form.key == "index"@ || form.key == "update"@,
        0 <= i < form.members.len(),
        form.members[i].0 == "_index"@,
    ensures
        read_metadata(encode_utf8(front + form.text() + back)) matches LineReading::Named(metadata)
            && {
            &&& metadata.action == form.key
            &&& metadata.index == form.members[i].1
            &&& forall|j: int|
                0 <= j < form.members.len() && (#[trigger] form.members[j]).0 == "_id"@
                    ==> metadata.doc_id == Some(form.members[j].1)
            &&& metadata.doc_id is Some ==> exists|j: int|
                0 <= j < form.members.len() && (#[trigger] form.members[j]).0 == "_id"@
        },
{
    let text = front + form.text() + back;
    encode_utf8_valid_utf8(text);
    encode_utf8_decode_utf8(text);
    law_white_space_is_cut(front, form.text(), back);
    law_plain_line_says_what_its_object_says(form);
    assert(plain_metadata(text) == plain_metadata(form.text()));
    law_objects_are_read(form.object());
    lemma_member_json(form, i);
    let inner = members_json(form.members);
    assert(form.object()[form.key] == Json::Object(inner));
    assert(names_stream(form.object(), form.key));
    assert forall|j: int| 0 <= j < form.members.len() && (#[trigger] form.members[j]).0
        == "_id"@ implies fast_metadata(encode_utf8(text))->Some_0.doc_id == Some(
        form.members[j].1,
    ) by {
        lemma_member_json(form, j);
    }
    if fast_metadata(encode_utf8(text))->Some_0.doc_id is Some {
        assert(has_member(form.members, "_id"@));
        let j = choose|j: int| member_at(form.members, "_id"@, j);
        assert(form.members[j].0 == "_id"@);
    }
}

/// The line that asks for an action on a stream, under a document id or none.
pub open spec fn request_line(metadata: Metadata) -> Seq<char> {
    "{\""@ + metadata.action + "\":{\"_index\":\""@ + metadata.index + (match metadata.doc_id {
        Some(id) => "\",\"_id\":\""@ + id + "\"}}"@,
        None => "\"}}"@,
    })
}

/// The request asks for one of the three actions, and its texts stand for themselves between
/// quotes.
pub open spec fn plain_request(metadata: Metadata) -> bool {
    &&& metadata.action == "create"@ || metadata.action == "index"@ || metadata.action
        == "update"@
    &&& plain_text(metadata.index)
    &&& metadata.doc_id matches Some(id) ==> plain_text(id)
}

/// Reading a line undoes writing it: a line that asks for an action on a stream says that action,
/// that stream and that document id, for each of the three actions and with white space around it.
pub proof fn law_request_lines_are_read(front: Seq<char>, metadata: Metadata, back: Seq<char>)
    requires
        all_white(front),
        all_white(back),
        plain_request(metadata),
    ensures
        read_metadata(encode_utf8(front + request_line(metadata) + back)) == LineReading::Named(
            metadata,
        ),
{
    reveal_strlit("create");
    reveal_strlit("index");
    reveal_strlit("update");
    reveal_strlit("_index");
    reveal_strlit("_id");
    reveal_strlit("{\"");
    reveal_strlit("\":{");
    reveal_strlit("\"");
    reveal_strlit(",");
    reveal_strlit("\":\"");
    reveal_strlit("}}");
    reveal_strlit("\":{\"_index\":\"");
    reveal_strlit("\",\"_id\":\"");
    reveal_strlit("\"}}");
    assert("_index"@.len() != "_id"@.len());
    let members = match metadata.doc_id {
        Some(id) => seq![("_index"@, metadata.index), ("_id"@, id)],
        None => seq![("_index"@, metadata.index)],
    };
    let form = PlainObject { key: metadata.action, members };
    if metadata.doc_id is Some {
        assert(members_text(members, 1) == member_text(members[1]) + "}}"@);
        assert(members_text(members, 0) == member_text(members[0]) + ","@ + members_text(
            members,
            1,
        ));
        assert(members[1].0 == "_id"@);
    } else {
        assert(members_text(members, 0) == member_text(members[0]) + "}}"@);
    }
    assert(form.text() =~= request_line(metadata));
    law_plain_line_names_its_stream(front, form, back, 0);
}

/// The key of a stream is the organisation, `logs` and the name, with slashes between them.
proof fn lemma_stream_key(org_id: Seq<char>, name: Seq<char>)
    ensures
        stream_key(org_id, name) == org_id + "/logs/"@ + name,
{
    reveal_strlit("/");
    reveal_strlit("logs");
    reveal_strlit("/logs/");
    assert(stream_key(org_id, name) =~= org_id + "/logs/"@ + name);
}

/// The list of blocked streams holds, at `j`, the key of the stream.
pub open spec fn blocks_at(settings: SettingsView, name: Seq<char>, j: int) -> bool {
    0 <= j < settings.blocked.len() && settings.blocked[j] == settings.org_id + "/logs/"@ + name
}

/// A stream is blocked where its key stands anywhere in the list of blocked streams, and only
/// there.
proof fn lemma_blocked(settings: SettingsView, name: Seq<char>)
    ensures
        is_blocked(settings, name) <==> exists|j: int| #[trigger] blocks_at(settings, name, j),
{
    lemma_stream_key(settings.org_id, name);
    let key = stream_key(settings.org_id, name);
    if settings.blocked.contains(key) {
        let j = choose|j: int| 0 <= j < settings.blocked.len() && settings.blocked[j] == key;
        assert(blocks_at(settings, name, j));
    }
    if exists|j: int| #[trigger] blocks_at(settings, name, j) {
        let j = choose|j: int| #[trigger] blocks_at(settings, name, j);
        assert(settings.blocked[j] == key);
    }
}

/// No stream that a scan finds, at whatever line it stops, has its key anywhere in the list of
/// blocked streams.
pub proof fn law_blocked_streams_are_kept_out(
    body: Seq<u8>,
    lines: Seq<(int, int)>,
    settings: SettingsView,
    formatted: Seq<Seq<char>>,
    i: int,
    j: int,
)
    requires
        formatted.len() == lines.len(),
    ensures
        match scan_run(scan_start(), body, lines, settings, formatted) {
            ScanOutcome::Next(scan) => 0 <= i < scan.streams.len() ==> !blocks_at(
                settings,
                scan.streams[i].0,
                j,
            ),
            ScanOutcome::NotJson(scan, _) => 0 <= i < scan.streams.len() ==> !blocks_at(
                settings,
                scan.streams[i].0,
                j,
            ),
            ScanOutcome::NotObject(scan) => 0 <= i < scan.streams.len() ==> !blocks_at(
                settings,
                scan.streams[i].0,
                j,
            ),
        },
    decreases lines.len(),
{
    if lines.len() > 0 {
        let some = lines.drop_last();
        let names = formatted.drop_last();
        law_blocked_streams_are_kept_out(body, some, settings, names, i, j);
        law_blocked_streams_take_nothing(body, some, settings, names);
        law_blocked_streams_take_nothing(body, lines, settings, formatted);
        match scan_run(scan_start(), body, lines, settings, formatted) {
            ScanOutcome::Next(scan) => {
                if 0 <= i < scan.streams.len() {
                    lemma_blocked(settings, scan.streams[i].0);
                }
            },
            _ => {},
        }
    }
}

/// Every metadata line of a blocked stream is passed over: the stream is noted, no stream is
/// entered, nothing is answered, and the line behind it is no record.
pub proof fn law_blocked_line_is_passed_over(
    scan: ScanView,
    body: Seq<u8>,
    range: (int, int),
    settings: SettingsView,
    metadata: Metadata,
    name: Seq<char>,
    j: int,
)
    requires
        !scan.next_is_data,
        !repeats(scan, body, range),
        read_metadata(line_at(body, range)) == LineReading::Named(metadata),
        metadata.index != ""@ && metadata.index != "_"@ && metadata.index != "/"@,
        blocks_at(
            settings,
            if settings.skip_formatting {
                metadata.index
            } else {
                name
            },
            j,
        ),
    ensures
        scan_line(scan, body, range, settings, name) matches ScanOutcome::Next(after) && {
            &&& after.skipped == scan.skipped.push(
                if settings.skip_formatting {
                    metadata.index
                } else {
                    name
                },
            )
            &&& after.streams == scan.streams
            &&& after.data_lines == scan.data_lines
            &&& after.response == scan.response
            &&& !after.next_is_data
        },
{
    reveal_strlit("");
    assert(""@ =~= Seq::empty());
    assert(metadata.index.len() > 0) by {
        if metadata.index.len() == 0 {
            assert(metadata.index =~= ""@);
        }
    }
    lemma_blocked(
        settings,
        if settings.skip_formatting {
            metadata.index
        } else {
            name
        },
    );
}

/// A metadata line whose stream has no name, or is named `_` or `/`, is answered by one item under
/// its action, with its document id and the line in the reason; it takes no record.
pub proof fn law_line_without_stream_is_answered(
    scan: ScanView,
    body: Seq<u8>,
    range: (int, int),
    settings: SettingsView,
    metadata: Metadata,
    name: Seq<char>,
)
    requires
        !scan.next_is_data,
        !repeats(scan, body, range),
        read_metadata(line_at(body, range)) == LineReading::Named(metadata),
        metadata.index == ""@ || metadata.index == "_"@ || metadata.index == "/"@,
    ensures
        scan_line(scan, body, range, settings, name) matches ScanOutcome::Next(after) && {
            let reason = "Invalid stream name: "@ + lossy_text(line_at(body, range));
            let items = after.response.items;
            &&& items.len() == scan.response.items.len() + 1
            &&& items.take(scan.response.items.len() as int) == scan.response.items
            &&& items.last().dom() == Set::<Seq<char>>::empty().insert(metadata.action)
            &&& ({
                let item = items.last()[metadata.action];
                &&& item.index == metadata.index
                &&& item.stream_name == metadata.index
                &&& item.id == (match metadata.doc_id {
                    Some(id) => id,
                    None => ""@,
                })
                &&& item.status == 422
                &&& item.original_record is None
                &&& item.error matches Some(error) && error.reason == reason && error.err_type
                    == reason && error.index == metadata.index
            })
            &&& after.response.errors
            &&& after.streams == scan.streams
            &&& after.data_lines == scan.data_lines
            &&& after.skipped == scan.skipped
            &&& !after.next_is_data
        },
{
    reveal_strlit("");
    assert(""@ =~= Seq::empty());
    let after = scan_line(scan, body, range, settings, name)->Next_0;
    let items = after.response.items;
    assert(items.take(scan.response.items.len() as int) =~= scan.response.items);
    assert(items.last().dom() =~= Set::<Seq<char>>::empty().insert(metadata.action));
    assert(items.last()[metadata.action].id =~= (match metadata.doc_id {
        Some(id) => id,
        None => ""@,
    }));
}

/// A line where metadata is due that is an object without a stream changes nothing; one that is no
/// JSON, or no object, ends the scan with what was found before it. Where a record is due, no line
/// is read as metadata.
pub proof fn law_other_lines_change_nothing(
    scan: ScanView,
    body: Seq<u8>,
    range: (int, int),
    settings: SettingsView,
    name: Seq<char>,
)
    requires
        !scan.next_is_data,
        !repeats(scan, body, range),
    ensures
        !(read_metadata(line_at(body, range)) is Named) ==> match scan_line(
            scan,
            body,
            range,
            settings,
            name,
        ) {
            ScanOutcome::Next(after) => after == scan && serde_reading(line_at(body, range)) is Ok,
            ScanOutcome::NotJson(after, error) => after == scan && serde_reading(
                line_at(body, range),
            ) == Err::<Json, serde_json::Error>(error),
            ScanOutcome::NotObject(after) => after == scan && (serde_reading(line_at(body, range))
                matches Ok(value) && !(value is Object)),
        },
{
    law_lines_say_what_they_hold(line_at(body, range));
}

/// `name` is the form in which the name of a stream is stored: the name itself where names are
/// taken as they stand, else one that the function may give for it.
pub open spec fn final_name<F: Fn(String) -> String>(
    format: F,
    settings: SettingsView,
    said: Seq<char>,
    name: Seq<char>,
) -> bool {
    if settings.skip_formatting {
        name == said
    } else {
        exists|x: String, y: String| x@ == said && y@ == name && #[trigger] format.ensures((x,), y)
    }
}

/// The line, which lies in the body, asks for what the metadata says, with white space around it or
/// without.
pub open spec fn requests(body: Seq<u8>, range: (int, int), metadata: Metadata) -> bool {
    &&& 0 <= range.0 < range.1 <= body.len()
    &&& plain_request(metadata)
    &&& exists|front: Seq<char>, back: Seq<char>|
        #![trigger all_white(front), all_white(back)]
        all_white(front) && all_white(back) && line_at(body, range) == encode_utf8(
            front + request_line(metadata) + back,
        )
}

/// The stream takes records: its name is neither empty nor `_` nor `/`, and no form of it that is
/// stored has its key in the list of blocked streams.
pub open spec fn takes_records<F: Fn(String) -> String>(
    format: F,
    settings: SettingsView,
    said: Seq<char>,
) -> bool {
    &&& said != ""@ && said != "_"@ && said != "/"@
    &&& forall|name: Seq<char>, j: int|
        #![trigger final_name(format, settings, said, name), blocks_at(settings, name, j)]
        final_name(format, settings, said, name) ==> !blocks_at(settings, name, j)
}

/// The record `i` that a scan found is the line, and goes to the stream that the metadata names,
/// under its action and its document id.
pub open spec fn routed<F: Fn(String) -> String>(
    format: F,
    settings: SettingsView,
    scan: ScanView,
    i: int,
    range: (int, int),
    metadata: Metadata,
) -> bool {
    let line = scan.data_lines[i];
    &&& (line.start, line.end) == range
    &&& line.doc_id == metadata.doc_id
    &&& 0 <= line.stream_idx < scan.streams.len()
    &&& scan.streams[line.stream_idx].1 == metadata.action
    &&& final_name(format, settings, metadata.index, scan.streams[line.stream_idx].0)
}

/// What a scan keeps of the line that it accepted last.
spec fn keeps_last<F: Fn(String) -> String>(
    format: F,
    settings: SettingsView,
    scan: ScanView,
    body: Seq<u8>,
) -> bool {
    scan.last.1 > scan.last.0 ==> (read_metadata(line_at(body, scan.last)) matches LineReading::Named(
        metadata,
    ) && {
        &&& scan.accepted.action == metadata.action
        &&& scan.accepted.doc_id == metadata.doc_id
        &&& final_name(format, settings, metadata.index, scan.accepted.index)
        &&& 0 <= scan.current < scan.streams.len()
        &&& scan.streams[scan.current] == (scan.accepted.index, scan.accepted.action)
    })
}

/// The scan after one more metadata line and the record behind it.
proof fn lemma_pair<F: Fn(String) -> String>(
    format: F,
    scan: ScanView,
    body: Seq<u8>,
    first: (int, int),
    second: (int, int),
    settings: SettingsView,
    name: Seq<char>,
    ignored: Seq<char>,
    metadata: Metadata,
)
    requires
        scan_wf(scan, body),
        !scan.next_is_data,
        keeps_last(format, settings, scan, body),
        line_formatted(format, scan, body, first, settings, name),
        requests(body, first, metadata),
        takes_records(format, settings, metadata.index),
    ensures
        scan_line(scan, body, first, settings, name) matches ScanOutcome::Next(noted) && (scan_line(
            noted,
            body,
            second,
            settings,
            ignored,
        ) matches ScanOutcome::Next(taken) && {
            &&& scan_wf(taken, body)
            &&& !taken.next_is_data
            &&& keeps_last(format, settings, taken, body)
            &&& taken.data_lines.len() == scan.data_lines.len() + 1
            &&& taken.data_lines.drop_last() == scan.data_lines
            &&& routed(format, settings, taken, scan.data_lines.len() as int, second, metadata)
            &&& scan.streams.len() <= taken.streams.len()
            &&& taken.streams.take(scan.streams.len() as int) == scan.streams
            &&& taken.response == scan.response
            &&& taken.skipped == scan.skipped
            &&& taken.action == metadata.action
        }),
{
    let (front, back) = choose|front: Seq<char>, back: Seq<char>|
        #![trigger all_white(front), all_white(back)]
        all_white(front) && all_white(back) && line_at(body, first) == encode_utf8(
            front + request_line(metadata) + back,
        );
    law_request_lines_are_read(front, metadata, back);
    reveal_strlit("");
    assert(""@ =~= Seq::empty());
    assert(!invalid_name(metadata.index)) by {
        if metadata.index.len() == 0 {
            assert(metadata.index =~= ""@);
        }
    }
    let noted = scan_line(scan, body, first, settings, name)->Next_0;
    let taken = scan_line(noted, body, second, settings, ignored)->Next_0;
    let stored = if settings.skip_formatting {
        metadata.index
    } else {
        name
    };
    if !repeats(scan, body, first) {
        assert(final_name(format, settings, metadata.index, stored));
        lemma_blocked(settings, stored);
        assert(!is_blocked(settings, stored)) by {
            if is_blocked(settings, stored) {
                let j = choose|j: int| #[trigger] blocks_at(settings, stored, j);
                assert(!blocks_at(settings, stored, j));
            }
        }
    }
    assert(taken.data_lines.drop_last() =~= scan.data_lines);
    assert(taken.streams.take(scan.streams.len() as int) =~= scan.streams);
}

/// Scanning a body whose lines are, in turn, a request for an action on a stream that takes records
/// and a record, gives exactly those records, in their order: each goes to the stream of the line in
/// front of it, under that line's action and document id. Nothing is answered and no stream is
/// passed over.
pub proof fn law_each_record_goes_to_the_stream_in_front<F: Fn(String) -> String>(
    format: F,
    body: Seq<u8>,
    lines: Seq<(int, int)>,
    settings: SettingsView,
    formatted: Seq<Seq<char>>,
    said: Seq<Metadata>,
)
    requires
        formatted_by(format, scan_start(), body, lines, settings, formatted),
        lines.len() == 2 * said.len(),
        forall|i: int|
            0 <= i < said.len() ==> requests(body, lines[2 * i], #[trigger] said[i])
                && takes_records(format, settings, said[i].index),
    ensures
        scan_run(scan_start(), body, lines, settings, formatted) matches ScanOutcome::Next(scan) && {
            &&& scan.data_lines.len() == said.len()
            &&& forall|i: int|
                0 <= i < said.len() ==> routed(
                    format,
                    settings,
                    scan,
                    i,
                    lines[2 * i + 1],
                    #[trigger] said[i],
                )
            &&& scan.response.items.len() == 0
            &&& !scan.response.errors
            &&& scan.skipped.len() == 0
            &&& !scan.next_is_data
            &&& said.len() > 0 ==> scan.action == said.last().action
        },
{
    lemma_pairs(format, body, lines, settings, formatted, said);
}

proof fn lemma_pairs<F: Fn(String) -> String>(
    format: F,
    body: Seq<u8>,
    lines: Seq<(int, int)>,
    settings: SettingsView,
    formatted: Seq<Seq<char>>,
    said: Seq<Metadata>,
)
    requires
        formatted_by(format, scan_start(), body, lines, settings, formatted),
        lines.len() == 2 * said.len(),
        forall|i: int|
            0 <= i < said.len() ==> requests(body, lines[2 * i], #[trigger] said[i])
                && takes_records(format, settings, said[i].index),
    ensures
        scan_run(scan_start(), body, lines, settings, formatted) matches ScanOutcome::Next(scan) && {
            &&& scan_wf(scan, body)
            &&& keeps_last(format, settings, scan, body)
            &&& scan.data_lines.len() == said.len()
            &&& forall|i: int|
                0 <= i < said.len() ==> routed(
                    format,
                    settings,
                    scan,
                    i,
                    lines[2 * i + 1],
                    #[trigger] said[i],
                )
            &&& scan.response.items.len() == 0
            &&& !scan.response.errors
            &&& scan.skipped.len() == 0
            &&& !scan.next_is_data
            &&& said.len() > 0 ==> scan.action == said.last().action
        },
    decreases said.len(),
{
    if said.len() > 0 {
        let n = said.len() - 1;
        let some = said.drop_last();
        let head = lines.drop_last();
        let names = formatted.drop_last();
        assert(formatted_by(format, scan_start(), body, head, settings, names));
        assert(formatted_by(
            format,
            scan_start(),
            body,
            head.drop_last(),
            settings,
            names.drop_last(),
        ));
        assert forall|i: int| 0 <= i < some.len() implies requests(
            body,
            head.drop_last()[2 * i],
            #[trigger] some[i],
        ) && takes_records(format, settings, some[i].index) by {
            assert(some[i] == said[i]);
            assert(head.drop_last()[2 * i] == lines[2 * i]);
        }
        lemma_pairs(format, body, head.drop_last(), settings, names.drop_last(), some);
        let before = scan_run(
            scan_start(),
            body,
            head.drop_last(),
            settings,
            names.drop_last(),
        )->Next_0;
        assert(said[n] == said.last());
        assert(head.last() == lines[2 * n]);
        assert(lines.last() == lines[2 * n + 1]);
        lemma_pair(
            format,
            before,
            body,
            lines[2 * n],
            lines[2 * n + 1],
            settings,
            names.last(),
            formatted.last(),
            said[n],
        );
        let taken = scan_run(scan_start(), body, lines, settings, formatted)->Next_0;
        assert forall|i: int| 0 <= i < said.len() implies routed(
            format,
            settings,
            taken,
            i,
            lines[2 * i + 1],
            #[trigger] said[i],
        ) by {
            if i < n {
                assert(some[i] == said[i]);
                assert(head.drop_last()[2 * i + 1] == lines[2 * i + 1]);
                assert(routed(format, settings, before, i, lines[2 * i + 1], some[i]));
                assert(taken.data_lines[i] == taken.data_lines.drop_last()[i]);
                let idx = before.data_lines[i].stream_idx;
                assert(taken.streams[idx] == taken.streams.take(before.streams.len() as int)[idx]);
            }
        }
    }
}

/// The contents of the lines of a body.
pub open spec fn line_texts(body: Seq<u8>) -> Seq<Seq<u8>> {
    body_lines(body).map_values(|range: (int, int)| body.subrange(range.0, range.1))
}

proof fn lemma_lines_behind(front: Seq<u8>, rest: Seq<u8>, pos: int)
    requires
        0 <= pos,
    ensures
        lines_from(front + rest, front.len() + pos).len() == lines_from(rest, pos).len(),
        forall|i: int|
            0 <= i < lines_from(rest, pos).len() ==> (#[trigger] lines_from(
                front + rest,
                front.len() + pos,
            )[i]) == (
                front.len() + lines_from(rest, pos)[i].0,
                front.len() + lines_from(rest, pos)[i].1,
            ),
    decreases rest.len() + 1 - pos,
{
    let all = front + rest;
    let n = front.len() as int;
    if pos < rest.len() {
        lemma_newline(rest, pos);
        let newline = newline_from(rest, pos);
        assert forall|i: int| n + pos <= i < n + newline implies all[i] != NEWLINE by {
            assert(all[i] == rest[i - n]);
        }
        assert(newline < rest.len() ==> all[n + newline] == rest[newline]);
        lemma_newline_is(all, n + pos, n + newline);
        lemma_content_behind(front, rest, pos, newline);
        lemma_lines_behind(front, rest, newline + 1);
        let end = content_end(rest, pos, newline);
        let behind = lines_from(rest, newline + 1);
        let there = lines_from(all, n + newline + 1);
        if end > pos {
            let lines = lines_from(rest, pos);
            let shifted = lines_from(all, n + pos);
            assert forall|i: int| 0 <= i < lines.len() implies (#[trigger] shifted[i]) == (
                n + lines[i].0,
                n + lines[i].1,
            ) by {
                if i > 0 {
                    assert(lines[i] == behind[i - 1]);
                    assert(shifted[i] == there[i - 1]);
                }
            }
        }
    }
}

proof fn lemma_content_behind(front: Seq<u8>, rest: Seq<u8>, start: int, end: int)
    requires
        0 <= start <= end <= rest.len(),
    ensures
        content_end(front + rest, front.len() + start, front.len() + end) == front.len()
            + content_end(rest, start, end),
    decreases end - start,
{
    if end > start {
        assert((front + rest)[front.len() + end - 1] == rest[end - 1]);
        lemma_content_behind(front, rest, start, end - 1);
    }
}

/// The line ends that are cut off a line are cut whole.
proof fn lemma_content_cut(body: Seq<u8>, start: int, end: int, newline: int)
    requires
        0 <= start <= end <= newline <= body.len(),
        forall|i: int| end <= i < newline ==> body[i] == 13,
        end > start ==> body[end - 1] != 13 && body[end - 1] != 10,
    ensures
        content_end(body, start, newline) == end,
    decreases newline - end,
{
    if end < newline {
        lemma_content_cut(body, start, end, newline - 1);
    }
}

/// A body is cut into lines at its newlines: the first line is what stands in front of the first
/// newline, without the carriage returns in front of it, and the other lines are those of what
/// stands behind it. A line without content counts as none.
pub proof fn law_lines_are_cut_at_newlines(first: Seq<u8>, ends_count: nat, rest: Seq<u8>)
    requires
        forall|i: int| 0 <= i < first.len() ==> first[i] != 10,
        first.len() > 0 ==> first.last() != 13,
    ensures
        ({
            let ends = Seq::new(ends_count, |i: int| 13u8);
            let head = if first.len() > 0 {
                seq![first]
            } else {
                Seq::<Seq<u8>>::empty()
            };
            &&& line_texts(first + ends + seq![10u8] + rest) == head + line_texts(rest)
            &&& line_texts(first + ends) == head
        }),
        line_texts(Seq::empty()).len() == 0,
{
    let ends = Seq::new(ends_count, |i: int| 13u8);
    let whole = first + ends;
    let n = first.len() as int;
    let m = whole.len() as int;
    let front = whole + seq![10u8];
    let body = front + rest;
    assert(first + ends + seq![10u8] + rest =~= body);
    assert(body.take(m) =~= whole);
    lemma_first_line(first, ends, body, m);
    lemma_lines_behind(front, rest, 0);
    let behind = lines_from(rest, 0);
    let there = lines_from(body, m + 1);
    let head = if n > 0 {
        seq![first]
    } else {
        Seq::<Seq<u8>>::empty()
    };
    let want = head + line_texts(rest);
    law_lines_lie_in_order(rest, 0);
    assert(line_texts(body) =~= want) by {
        assert(line_texts(body).len() == want.len());
        assert forall|i: int| 0 <= i < want.len() implies #[trigger] line_texts(body)[i]
            == want[i] by {
            if i < head.len() {
                assert(body_lines(body)[0] == (0int, n));
                assert(body.subrange(0, n) =~= first);
            } else {
                let k = i - head.len();
                assert(body_lines(body)[i] == there[k]);
                assert(there[k] == (m + 1 + behind[k].0, m + 1 + behind[k].1));
                let range = behind[k];
                assert(body.subrange(m + 1 + range.0, m + 1 + range.1) =~= rest.subrange(
                    range.0,
                    range.1,
                ));
                assert(want[i] == line_texts(rest)[k]);
            }
        }
    }
    assert(whole.take(m) =~= whole);
    lemma_first_line(first, ends, whole, m);
    assert(lines_from(whole, m + 1).len() == 0);
    if n > 0 {
        assert(body_lines(whole)[0] == (0int, n));
        assert(whole.subrange(0, n) =~= first);
    }
    assert(line_texts(whole) =~= head);
}

/// The first line of a body.
proof fn lemma_first_line(first: Seq<u8>, ends: Seq<u8>, body: Seq<u8>, newline: int)
    requires
        forall|i: int| 0 <= i < first.len() ==> first[i] != 10,
        first.len() > 0 ==> first.last() != 13,
        forall|i: int| 0 <= i < ends.len() ==> ends[i] == 13,
        newline == first.len() + ends.len(),
        newline <= body.len(),
        body.take(newline) == first + ends,
        newline < body.len() ==> body[newline] == 10,
    ensures
        body_lines(body) == if first.len() > 0 {
            seq![(0int, first.len() as int)] + lines_from(body, newline + 1)
        } else {
            lines_from(body, newline + 1)
        },
{
    let n = first.len() as int;
    assert forall|i: int| 0 <= i < newline implies body[i] == (if i < n {
        first[i]
    } else {
        13u8
    }) by {
        assert(body.take(newline)[i] == body[i]);
        if i >= n {
            assert((first + ends)[i] == ends[i - n]);
        }
    }
    lemma_newline_is(body, 0, newline);
    if n > 0 {
        assert(first[n - 1] == first.last());
    }
    lemma_content_cut(body, 0, n, newline);
    if body.len() == 0 {
        assert(lines_from(body, newline + 1) =~= Seq::empty());
    }
}

/// A scan gives what it came to: what it found, and the error of the line at which it stopped, if it
/// stopped.
pub proof fn law_scans_give_what_they_found(
    outcome: ScanOutcome,
    result: Result<BulkScan, (BulkScan, ScanError)>,
)
    requires
        scan_result(outcome, result),
    ensures
        result is Ok <==> outcome is Next,
        outcome matches ScanOutcome::Next(scan) ==> result->Ok_0@ == scan,
        outcome matches ScanOutcome::NotJson(scan, error) ==> result->Err_0.0@ == scan
            && result->Err_0.1 == ScanError::NotJson(error),
        outcome matches ScanOutcome::NotObject(scan) ==> result->Err_0.0@ == scan
            && result->Err_0.1 == ScanError::NotObject,
{
}

/// What data lines, streams and settings say leaves nothing out.
pub proof fn law_lines_and_streams_are_seen_whole(
    lines: Seq<DataLine>,
    streams: Seq<(String, String)>,
    settings: ScanSettings,
    i: int,
)
    ensures
        data_view(lines).len() == lines.len(),
        0 <= i < lines.len() ==> {
            let line = data_view(lines)[i];
            &&& line.start == lines[i].start
            &&& line.end == lines[i].end
            &&& line.stream_idx == lines[i].stream_idx
            &&& line.doc_id == (match lines[i].doc_id {
                Some(id) => Some(id@),
                None => None,
            })
        },
        streams_view(streams).len() == streams.len(),
        0 <= i < streams.len() ==> streams_view(streams)[i].0 == streams[i].0@
            && streams_view(streams)[i].1 == streams[i].1@,
        settings@.org_id == settings.org_id@,
        settings@.skip_formatting == settings.skip_formatting_stream_name,
        settings@.blocked.len() == settings.blocked_streams@.len(),
        0 <= i < settings.blocked_streams@.len() ==> settings@.blocked[i]
            == settings.blocked_streams@[i]@,
{
}

/// Wherever a scan stands, a line that names a stream whose name is neither empty nor `_` nor `/`,
/// and whose key is nowhere in the list of blocked streams, takes the line behind it as a record of
/// that stream, under its action and its document id; nothing is answered, no stream is passed over,
/// and the streams and records that were found before stay.
pub proof fn law_open_streams_take_the_next_line(
    scan: ScanView,
    body: Seq<u8>,
    first: (int, int),
    second: (int, int),
    settings: SettingsView,
    metadata: Metadata,
    name: Seq<char>,
    ignored: Seq<char>,
)
    requires
        scan_wf(scan, body),
        !scan.next_is_data,
        !repeats(scan, body, first),
        read_metadata(line_at(body, first)) == LineReading::Named(metadata),
        metadata.index != ""@ && metadata.index != "_"@ && metadata.index != "/"@,
        settings.skip_formatting ==> name == metadata.index,
        forall|j: int| !#[trigger] blocks_at(settings, name, j),
    ensures
        scan_line(scan, body, first, settings, name) matches ScanOutcome::Next(noted) && (scan_line(
            noted,
            body,
            second,
            settings,
            ignored,
        ) matches ScanOutcome::Next(taken) && {
            let record = taken.data_lines.last();
            &&& taken.data_lines == scan.data_lines.push(record)
            &&& (record.start, record.end) == second
            &&& record.doc_id == metadata.doc_id
            &&& 0 <= record.stream_idx < taken.streams.len()
            &&& taken.streams[record.stream_idx] == (name, metadata.action)
            &&& taken.streams.len() >= scan.streams.len()
            &&& taken.streams.take(scan.streams.len() as int) == scan.streams
            &&& taken.response == scan.response
            &&& taken.skipped == scan.skipped
            &&& taken.action == metadata.action
            &&& !taken.next_is_data
        }),
{
    reveal_strlit("");
    assert(""@ =~= Seq::empty());
    assert(!invalid_name(metadata.index)) by {
        if metadata.index.len() == 0 {
            assert(metadata.index =~= ""@);
        }
    }
    lemma_blocked(settings, name);
    law_record_goes_where_its_metadata_says(
        scan,
        body,
        first,
        second,
        settings,
        metadata,
        name,
        ignored,
    );
    let noted = scan_line(scan, body, first, settings, name)->Next_0;
    let taken = scan_line(noted, body, second, settings, ignored)->Next_0;
    assert(taken.streams.take(scan.streams.len() as int) =~= scan.streams);
}

} // verus!
