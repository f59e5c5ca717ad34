//! Writing the records of several streams in one call: one stream after the other has its turn,
//! until a stream cannot be written or none is left.

use crate::dict::Dict;
use crate::json::{Json, Object};
use crate::records::records_view;
use crate::response::{IngestionStatus, StatusView};
use crate::text::{lists_text, views};
use crate::usage::{dropped_of, report_view, usage_of, usage_report, UsageReport, UsageView};
use vstd::prelude::*;

verus! {

/// The records of a stream, and how many functions were applied to them.
pub struct StreamData {
    pub records: Seq<(i64, Map<Seq<char>, Json>)>,
    pub fn_num: Option<usize>,
}

/// What the streams of a call hold.
pub open spec fn streams_view(
    streams: Map<Seq<char>, (Vec<(i64, Object)>, Option<usize>)>,
) -> Map<Seq<char>, StreamData> {
    streams.map_values(
        |data: (Vec<(i64, Object)>, Option<usize>)|
            StreamData { records: records_view(data.0@), fn_num: data.1 },
    )
}

/// What holds for all streams of a call: which of them are derived, the sizes that the user sent,
/// and who the user is.
pub struct CallTerms {
    pub derived_streams: Seq<Seq<char>>,
    pub sizes: Map<Seq<char>, usize>,
    pub user_email: Seq<char>,
}

/// What the writer was given: a stream, its records, whether it is derived, and the status as it
/// was then.
pub struct WriteCall {
    pub stream_name: Seq<char>,
    pub records: Seq<(i64, Map<Seq<char>, Json>)>,
    pub is_derived: bool,
    pub status: StatusView,
}

/// How far a call has come: the streams that are left, what the writer was given, what was
/// reported of which stream, the status, and whether a stream could not be written.
#[verifier::ext_equal]
pub struct CallView {
    pub pending: Map<Seq<char>, StreamData>,
    pub writes: Seq<WriteCall>,
    pub reports: Seq<(Seq<char>, UsageView)>,
    pub status: StatusView,
    pub failed: bool,
}

impl CallView {
    /// The call without a stream.
    pub open spec fn without(self, stream_name: Seq<char>) -> CallView {
        CallView { pending: self.pending.remove(stream_name), ..self }
    }

    /// No stream has its turn any more.
    pub open spec fn is_over(self) -> bool {
        self.failed || self.pending == Map::<Seq<char>, StreamData>::empty()
    }
}

/// What came of the turn of a stream: it is being deleted, it may not be written, or the writer has
/// written it or not, and left the status behind.
pub enum Answer<'a> {
    Deleting,
    Refused,
    Failed(&'a IngestionStatus),
    Written(&'a IngestionStatus),
}

/// What an `Answer` says.
pub enum AnswerView {
    Deleting,
    Refused,
    Failed(StatusView),
    Written(StatusView),
}

impl<'a> View for Answer<'a> {
    type V = AnswerView;

    open spec fn view(&self) -> AnswerView {
        match self {
            Answer::Deleting => AnswerView::Deleting,
            Answer::Refused => AnswerView::Refused,
            Answer::Failed(status) => AnswerView::Failed(status@),
            Answer::Written(status) => AnswerView::Written(status@),
        }
    }
}

/// A turn: the stream, and what it holds.
pub struct TurnView {
    pub stream_name: Seq<char>,
    pub data: StreamData,
}

/// What is reported once a stream had its turn: its use, where it was written.
pub open spec fn report_of(
    terms: CallTerms,
    turn: TurnView,
    answer: AnswerView,
) -> Option<UsageView> {
    match answer {
        AnswerView::Written(status) => usage_of(
            turn.stream_name,
            terms.user_email,
            status,
            turn.data.fn_num,
            terms.sizes,
        ),
        _ => None,
    }
}

/// A call once the writer was given a stream, and left a status behind.
pub open spec fn handed_over(
    terms: CallTerms,
    call: CallView,
    turn: TurnView,
    status: StatusView,
) -> CallView {
    CallView {
        writes: call.writes.push(
            WriteCall {
                stream_name: turn.stream_name,
                records: turn.data.records,
                is_derived: terms.derived_streams.contains(turn.stream_name),
                status: call.status,
            },
        ),
        status,
        ..call
    }
}

/// A call, from which the stream was taken out, once the stream had its turn. A stream that is
/// being deleted changes nothing. One that may not be written, or could not be, ends the call. The
/// use of one that was written is reported, where it is.
pub open spec fn answered(
    terms: CallTerms,
    call: CallView,
    turn: TurnView,
    answer: AnswerView,
) -> CallView {
    match answer {
        AnswerView::Deleting => call,
        AnswerView::Refused => CallView { failed: true, ..call },
        AnswerView::Failed(status) => CallView {
            failed: true,
            ..handed_over(terms, call, turn, status)
        },
        AnswerView::Written(status) => {
            let after = handed_over(terms, call, turn, status);
            match report_of(terms, turn, answer) {
                Some(report) => CallView {
                    reports: after.reports.push((turn.stream_name, report)),
                    ..after
                },
                None => after,
            }
        },
    }
}

/// A call once a stream had its turn.
pub open spec fn after_turn(
    terms: CallTerms,
    call: CallView,
    turn: TurnView,
    answer: AnswerView,
) -> CallView {
    answered(terms, call.without(turn.stream_name), turn, answer)
}

/// A call once streams had their turns, one after the other.
pub open spec fn after_turns(
    terms: CallTerms,
    call: CallView,
    turns: Seq<(TurnView, AnswerView)>,
) -> CallView
    decreases turns.len(),
{
    if turns.len() == 0 {
        call
    } else {
        after_turn(
            terms,
            after_turns(terms, call, turns.drop_last()),
            turns.last().0,
            turns.last().1,
        )
    }
}

/// The stream may have the next turn: it is one of those that are left, and the call has not ended.
pub open spec fn may_follow(call: CallView, turn: TurnView) -> bool {
    &&& !call.failed
    &&& call.pending.contains_key(turn.stream_name)
    &&& call.pending[turn.stream_name] == turn.data
}

/// The turns may come one after the other.
pub open spec fn turns_follow(
    terms: CallTerms,
    call: CallView,
    turns: Seq<(TurnView, AnswerView)>,
) -> bool {
    forall|i: int|
        0 <= i < turns.len() ==> may_follow(
            after_turns(terms, call, turns.take(i)),
            #[trigger] turns[i].0,
        )
}

/// The turn of a stream: its name, whether it is derived, and how many functions were applied.
pub struct Turn {
    stream_name: String,
    is_derived: bool,
    fn_num: Option<usize>,
    records: Ghost<Seq<(i64, Map<Seq<char>, Json>)>>,
}

impl View for Turn {
    type V = TurnView;

    closed spec fn view(&self) -> TurnView {
        TurnView {
            stream_name: self.stream_name@,
            data: StreamData { records: self.records@, fn_num: self.fn_num },
        }
    }
}

impl Turn {
    /// Whether the stream is derived.
    pub closed spec fn derived(self) -> bool {
        self.is_derived
    }

    /// The name of the stream.
    pub fn stream_name(&self) -> (result: &str)
        ensures
            result@ == self@.stream_name,
    {
        self.stream_name.as_str()
    }

    /// Whether the stream is derived.
    pub fn is_derived(&self) -> (result: bool)
        ensures
            result == self.derived(),
    {
        self.is_derived
    }
}

/// A call that writes the records of several streams.
pub struct StreamCall {
    pending: Dict<(Vec<(i64, Object)>, Option<usize>)>,
    derived_streams: Vec<String>,
    byte_size_by_stream: Dict<usize>,
    user_email: String,
    failed: bool,
    writes: Ghost<Seq<WriteCall>>,
    reports: Ghost<Seq<(Seq<char>, UsageView)>>,
    status: Ghost<StatusView>,
}

impl View for StreamCall {
    type V = CallView;

    closed spec fn view(&self) -> CallView {
        CallView {
            pending: streams_view(self.pending@),
            writes: self.writes@,
            reports: self.reports@,
            status: self.status@,
            failed: self.failed,
        }
    }
}

impl StreamCall {
    /// What holds for all streams of the call.
    pub closed spec fn terms(self) -> CallTerms {
        CallTerms {
            derived_streams: views(self.derived_streams@),
            sizes: self.byte_size_by_stream@,
            user_email: self.user_email@,
        }
    }

    /// A call in which no stream had its turn yet.
    pub fn new(
        json_data_by_stream: Dict<(Vec<(i64, Object)>, Option<usize>)>,
        byte_size_by_stream: Dict<usize>,
        derived_streams: Vec<String>,
        user_email: &str,
        status: &IngestionStatus,
    ) -> (result: Self)
        ensures
            result@ == (CallView {
                pending: streams_view(json_data_by_stream@),
                writes: Seq::empty(),
                reports: Seq::empty(),
                status: status@,
                failed: false,
            }),
            result.terms() == (CallTerms {
                derived_streams: views(derived_streams@),
                sizes: byte_size_by_stream@,
                user_email: user_email@,
            }),
    {
        StreamCall {
            pending: json_data_by_stream,
            derived_streams,
            byte_size_by_stream,
            user_email: user_email.to_string(),
            failed: false,
            writes: Ghost(Seq::empty()),
            reports: Ghost(Seq::empty()),
            status: Ghost(status@),
        }
    }

    /// Takes out a stream that has the next turn, with its records, unless the call is over.
    pub fn next_turn(&mut self) -> (result: Option<(Turn, Vec<(i64, Object)>)>)
        ensures
            final(self).terms() == old(self).terms(),
            match result {
                Some((turn, records)) => {
                    &&& may_follow(old(self)@, turn@)
                    &&& final(self)@ == old(self)@.without(turn@.stream_name)
                    &&& turn.derived() == old(self).terms().derived_streams.contains(
                        turn@.stream_name,
                    )
                    &&& records_view(records@) == turn@.data.records
                },
                None => old(self)@.is_over() && final(self)@ == old(self)@,
            },
    {
        if self.failed {
            return None;
        }
        let ghost before = self.pending@;
        let (stream_name, (records, fn_num)) = match self.pending.pop() {
            Some(entry) => entry,
            None => {
                assert(streams_view(before) =~= Map::<Seq<char>, StreamData>::empty());
                return None;
            },
        };
        assert(streams_view(self.pending@) =~= streams_view(before).remove(stream_name@));
        let is_derived = lists_text(&self.derived_streams, stream_name.as_str());
        let turn = Turn { stream_name, is_derived, fn_num, records: Ghost(records_view(records@)) };
        Some((turn, records))
    }

    /// Notes what came of the turn of a stream. The use of the stream is to be reported as it says.
    pub fn answer(&mut self, turn: Turn, answer: Answer) -> (result: Option<UsageReport>)
        requires
            answer@ matches AnswerView::Written(status) ==> dropped_of(status) <= i64::MAX,
        ensures
            final(self).terms() == old(self).terms(),
            final(self)@ == answered(old(self).terms(), old(self)@, turn@, answer@),
            report_view(result) == report_of(old(self).terms(), turn@, answer@),
    {
        let ghost handed = WriteCall {
            stream_name: turn@.stream_name,
            records: turn@.data.records,
            is_derived: self.terms().derived_streams.contains(turn@.stream_name),
            status: self.status@,
        };
        match answer {
            Answer::Deleting => None,
            Answer::Refused => {
                self.failed = true;
                None
            },
            Answer::Failed(status) => {
                self.failed = true;
                self.writes = Ghost(self.writes@.push(handed));
                self.status = Ghost(status@);
                None
            },
            Answer::Written(status) => {
                let report = usage_report(
                    turn.stream_name.as_str(),
                    self.user_email.as_str(),
                    status,
                    turn.fn_num,
                    &self.byte_size_by_stream,
                );
                self.writes = Ghost(self.writes@.push(handed));
                self.status = Ghost(status@);
                if let Some(report) = &report {
                    self.reports = Ghost(self.reports@.push((turn@.stream_name, report@)));
                }
                report
            },
        }
    }

    /// Whether a stream could not be written.
    pub fn has_failed(&self) -> (result: bool)
        ensures
            result == self@.failed,
    {
        self.failed
    }
}

proof fn lemma_streams_leave(
    terms: CallTerms,
    call: CallView,
    turns: Seq<(TurnView, AnswerView)>,
    stream_name: Seq<char>,
)
    ensures
        after_turns(terms, call, turns).pending.contains_key(stream_name) == (
        call.pending.contains_key(stream_name) && forall|i: int|
            0 <= i < turns.len() ==> (#[trigger] turns[i]).0.stream_name != stream_name),
        after_turns(terms, call, turns).pending.contains_key(stream_name) ==> after_turns(
            terms,
            call,
            turns,
        ).pending[stream_name] == call.pending[stream_name],
    decreases turns.len(),
{
    if turns.len() > 0 {
        let some = turns.drop_last();
        lemma_streams_leave(terms, call, some, stream_name);
        assert forall|i: int| 0 <= i < some.len() implies #[trigger] turns[i] == some[i] by {}
        if after_turns(terms, call, some).pending.contains_key(stream_name)
            && turns.last().0.stream_name != stream_name {
            assert forall|i: int| 0 <= i < turns.len() implies (#[trigger] turns[i]).0.stream_name
                != stream_name by {
                if i < some.len() {
                    assert(some[i].0.stream_name != stream_name);
                }
            }
        }
        if call.pending.contains_key(stream_name) && forall|i: int|
            0 <= i < turns.len() ==> (#[trigger] turns[i]).0.stream_name != stream_name {
            assert forall|i: int| 0 <= i < some.len() implies (#[trigger] some[i]).0.stream_name
                != stream_name by {
                assert(turns[i].0.stream_name != stream_name);
            }
            assert(turns[turns.len() - 1].0.stream_name != stream_name);
        }
    }
}

/// No stream has two turns, and where no stream failed, every stream has had its turn once the call
/// is over.
pub proof fn law_each_stream_has_one_turn(
    terms: CallTerms,
    call: CallView,
    turns: Seq<(TurnView, AnswerView)>,
)
    requires
        turns_follow(terms, call, turns),
    ensures
        forall|i: int, j: int|
            0 <= i < j < turns.len() ==> (#[trigger] turns[i]).0.stream_name != (
            #[trigger] turns[j]).0.stream_name,
        after_turns(terms, call, turns).is_over() && !after_turns(terms, call, turns).failed ==> (
        forall|stream_name: Seq<char>| #[trigger]
            call.pending.contains_key(stream_name) ==> exists|i: int|
                0 <= i < turns.len() && (#[trigger] turns[i]).0.stream_name == stream_name),
{
    assert forall|i: int, j: int| 0 <= i < j < turns.len() implies (
    #[trigger] turns[i]).0.stream_name != (#[trigger] turns[j]).0.stream_name by {
        lemma_streams_leave(terms, call, turns.take(j), turns[j].0.stream_name);
        assert(may_follow(after_turns(terms, call, turns.take(j)), turns[j].0));
        assert(turns.take(j)[i] == turns[i]);
    }
    let after = after_turns(terms, call, turns);
    if after.is_over() && !after.failed {
        assert forall|stream_name: Seq<char>| #[trigger]
            call.pending.contains_key(stream_name) implies exists|i: int|
            0 <= i < turns.len() && (#[trigger] turns[i]).0.stream_name == stream_name by {
            lemma_streams_leave(terms, call, turns, stream_name);
        }
    }
}

/// A stream that may not be written, or could not be, is the last to have its turn.
pub proof fn law_a_failure_ends_the_call(
    terms: CallTerms,
    call: CallView,
    turns: Seq<(TurnView, AnswerView)>,
    i: int,
)
    requires
        turns_follow(terms, call, turns),
        0 <= i < turns.len(),
        turns[i].1 is Refused || turns[i].1 is Failed,
    ensures
        i == turns.len() - 1,
        after_turns(terms, call, turns).failed,
        after_turns(terms, call, turns).is_over(),
{
    let first = turns.take(i + 1);
    assert(first.drop_last() =~= turns.take(i));
    assert(first.last() == turns[i]);
    if i + 1 < turns.len() {
        assert(may_follow(after_turns(terms, call, turns.take(i + 1)), turns[i + 1].0));
    }
    assert(turns.take(turns.len() as int) =~= turns);
}

/// A stream that is taken out of a call before or after the turn of another stream.
proof fn lemma_without(
    terms: CallTerms,
    call: CallView,
    turn: TurnView,
    answer: AnswerView,
    stream_name: Seq<char>,
)
    ensures
        after_turn(terms, call.without(stream_name), turn, answer) == after_turn(
            terms,
            call,
            turn,
            answer,
        ).without(stream_name),
{
    let one = call.without(stream_name).without(turn.stream_name);
    let other = call.without(turn.stream_name).without(stream_name);
    assert(one.pending =~= other.pending);
    assert(one == other);
}

/// The turns of other streams fare the same without a stream.
proof fn lemma_others_fare_the_same(
    terms: CallTerms,
    call: CallView,
    turns: Seq<(TurnView, AnswerView)>,
    stream_name: Seq<char>,
)
    ensures
        after_turns(terms, call.without(stream_name), turns) == after_turns(
            terms,
            call,
            turns,
        ).without(stream_name),
    decreases turns.len(),
{
    if turns.len() > 0 {
        let some = turns.drop_last();
        lemma_others_fare_the_same(terms, call, some, stream_name);
        lemma_without(
            terms,
            after_turns(terms, call, some),
            turns.last().0,
            turns.last().1,
            stream_name,
        );
    }
}

/// What the turns behind the one of a stream that is being deleted come to without it.
proof fn lemma_turn_left_out(
    terms: CallTerms,
    call: CallView,
    turns: Seq<(TurnView, AnswerView)>,
    i: int,
)
    requires
        0 <= i < turns.len(),
        turns[i].1 is Deleting,
    ensures
        after_turns(terms, call.without(turns[i].0.stream_name), turns.remove(i)) == after_turns(
            terms,
            call,
            turns,
        ),
    decreases turns.len(),
{
    let stream_name = turns[i].0.stream_name;
    let some = turns.drop_last();
    if i == turns.len() - 1 {
        assert(turns.remove(i) =~= some);
        lemma_others_fare_the_same(terms, call, some, stream_name);
    } else {
        lemma_turn_left_out(terms, call, some, i);
        assert(turns.remove(i).drop_last() =~= some.remove(i));
        assert(turns.remove(i).last() == turns.last());
    }
}

/// A stream that is being deleted changes nothing in a call: the other streams have the turns that
/// they have in the call without it, the writer is given the same, in the same order and with the
/// same status, the same is reported, and the call ends as that one does, with the same status.
pub proof fn law_a_deleting_stream_changes_nothing(
    terms: CallTerms,
    call: CallView,
    turns: Seq<(TurnView, AnswerView)>,
    i: int,
)
    requires
        turns_follow(terms, call, turns),
        0 <= i < turns.len(),
        turns[i].1 is Deleting,
    ensures
        turns_follow(terms, call.without(turns[i].0.stream_name), turns.remove(i)),
        after_turns(terms, call.without(turns[i].0.stream_name), turns.remove(i)) == after_turns(
            terms,
            call,
            turns,
        ),
{
    let stream_name = turns[i].0.stream_name;
    let rest = call.without(stream_name);
    let others = turns.remove(i);
    lemma_turn_left_out(terms, call, turns, i);
    law_each_stream_has_one_turn(terms, call, turns);
    assert forall|j: int| 0 <= j < others.len() implies may_follow(
        after_turns(terms, rest, others.take(j)),
        #[trigger] others[j].0,
    ) by {
        if j < i {
            assert(others[j] == turns[j]);
            assert(others.take(j) =~= turns.take(j));
            lemma_others_fare_the_same(terms, call, turns.take(j), stream_name);
            assert(may_follow(after_turns(terms, call, turns.take(j)), turns[j].0));
            assert(turns[j].0.stream_name != turns[i].0.stream_name);
        } else {
            assert(others[j] == turns[j + 1]);
            let first = turns.take(j + 1);
            assert(first[i] == turns[i]);
            assert(others.take(j) =~= first.remove(i));
            lemma_turn_left_out(terms, call, first, i);
            assert(may_follow(after_turns(terms, call, turns.take(j + 1)), turns[j + 1].0));
        }
    }
}

/// The stream had a turn, and was not being deleted then.
spec fn was_taken(turns: Seq<(TurnView, AnswerView)>, stream_name: Seq<char>) -> bool {
    exists|j: int|
        0 <= j < turns.len() && (#[trigger] turns[j]).0.stream_name == stream_name
            && !(turns[j].1 is Deleting)
}

/// What is given to the writer and what is reported is of streams that were not being deleted.
proof fn lemma_taken_streams(terms: CallTerms, call: CallView, turns: Seq<(TurnView, AnswerView)>)
    ensures
        after_turns(terms, call, turns).writes.len() >= call.writes.len(),
        after_turns(terms, call, turns).reports.len() >= call.reports.len(),
        forall|k: int|
            call.writes.len() <= k < after_turns(terms, call, turns).writes.len() ==> was_taken(
                turns,
                (#[trigger] after_turns(terms, call, turns).writes[k]).stream_name,
            ),
        forall|k: int|
            call.reports.len() <= k < after_turns(terms, call, turns).reports.len() ==> was_taken(
                turns,
                (#[trigger] after_turns(terms, call, turns).reports[k]).0,
            ),
    decreases turns.len(),
{
    if turns.len() > 0 {
        let some = turns.drop_last();
        lemma_taken_streams(terms, call, some);
        let mid = after_turns(terms, call, some);
        let after = after_turns(terms, call, turns);
        assert forall|stream_name: Seq<char>| #[trigger]
            was_taken(some, stream_name) implies was_taken(turns, stream_name) by {
            let j = choose|j: int|
                0 <= j < some.len() && (#[trigger] some[j]).0.stream_name == stream_name
                    && !(some[j].1 is Deleting);
            assert(turns[j] == some[j]);
        }
        let last = turns[turns.len() - 1];
        assert(!(last.1 is Deleting) ==> was_taken(turns, last.0.stream_name));
        assert forall|k: int| call.writes.len() <= k < after.writes.len() implies was_taken(
            turns,
            (#[trigger] after.writes[k]).stream_name,
        ) by {
            if k < mid.writes.len() {
                assert(after.writes[k] == mid.writes[k]);
            }
        }
        assert forall|k: int| call.reports.len() <= k < after.reports.len() implies was_taken(
            turns,
            (#[trigger] after.reports[k]).0,
        ) by {
            if k < mid.reports.len() {
                assert(after.reports[k] == mid.reports[k]);
            }
        }
    }
}

/// The writer is not given a stream that is being deleted, and nothing is reported of it.
pub proof fn law_a_deleting_stream_is_not_written(
    terms: CallTerms,
    call: CallView,
    turns: Seq<(TurnView, AnswerView)>,
    i: int,
)
    requires
        turns_follow(terms, call, turns),
        0 <= i < turns.len(),
        turns[i].1 is Deleting,
    ensures
        forall|k: int|
            call.writes.len() <= k < after_turns(terms, call, turns).writes.len() ==> (
            #[trigger] after_turns(terms, call, turns).writes[k]).stream_name
                != turns[i].0.stream_name,
        forall|k: int|
            call.reports.len() <= k < after_turns(terms, call, turns).reports.len() ==> (
            #[trigger] after_turns(terms, call, turns).reports[k]).0 != turns[i].0.stream_name,
{
    lemma_taken_streams(terms, call, turns);
    law_each_stream_has_one_turn(terms, call, turns);
    if was_taken(turns, turns[i].0.stream_name) {
        let j = choose|j: int|
            0 <= j < turns.len() && (#[trigger] turns[j]).0.stream_name == turns[i].0.stream_name
                && !(turns[j].1 is Deleting);
        assert(j != i);
    }
}

/// Where every stream is being deleted, the call does not fail, its status stays as it was, the
/// writer is given nothing, and nothing is reported.
pub proof fn law_deleting_streams_leave_the_status(
    terms: CallTerms,
    call: CallView,
    turns: Seq<(TurnView, AnswerView)>,
)
    requires
        forall|i: int| 0 <= i < turns.len() ==> (#[trigger] turns[i]).1 is Deleting,
    ensures
        after_turns(terms, call, turns).failed == call.failed,
        after_turns(terms, call, turns).status == call.status,
        after_turns(terms, call, turns).writes == call.writes,
        after_turns(terms, call, turns).reports == call.reports,
    decreases turns.len(),
{
    if turns.len() > 0 {
        let some = turns.drop_last();
        assert forall|i: int| 0 <= i < some.len() implies (#[trigger] some[i]).1 is Deleting by {
            assert(some[i] == turns[i]);
        }
        law_deleting_streams_leave_the_status(terms, call, some);
        assert(turns[turns.len() - 1].1 is Deleting);
    }
}

/// The stream was given to the writer.
pub open spec fn was_given(answer: AnswerView) -> bool {
    answer is Written || answer is Failed
}

/// How many of the first turns gave their streams to the writer.
pub open spec fn given_before(turns: Seq<(TurnView, AnswerView)>, j: int) -> int
    decreases j,
{
    if j <= 0 {
        0
    } else {
        given_before(turns, j - 1) + if was_given(turns[j - 1].1) {
            1int
        } else {
            0
        }
    }
}

proof fn lemma_given_taken(turns: Seq<(TurnView, AnswerView)>, n: int, j: int)
    requires
        0 <= j <= n <= turns.len(),
    ensures
        0 <= given_before(turns, j) <= j,
        given_before(turns.take(n), j) == given_before(turns, j),
    decreases j,
{
    if j > 0 {
        lemma_given_taken(turns, n, j - 1);
    }
}

/// Each stream that was written, or could not be, was given to the writer once, in the order of the
/// turns: with its own records, as derived where its name is among the derived streams, and with the
/// status as the turns before left it. No other stream was.
pub proof fn law_streams_are_given_to_the_writer(
    terms: CallTerms,
    call: CallView,
    turns: Seq<(TurnView, AnswerView)>,
    j: int,
)
    requires
        turns_follow(terms, call, turns),
        0 <= j < turns.len(),
    ensures
        after_turns(terms, call, turns).writes.len() == call.writes.len() + given_before(
            turns,
            turns.len() as int,
        ),
        was_given(turns[j].1) ==> {
            let writes = after_turns(terms, call, turns).writes;
            let at = call.writes.len() + given_before(turns, j);
            let name = turns[j].0.stream_name;
            &&& 0 <= at < writes.len()
            &&& writes[at].stream_name == name
            &&& call.pending.contains_key(name)
            &&& writes[at].records == call.pending[name].records
            &&& writes[at].is_derived <==> exists|d: int|
                0 <= d < terms.derived_streams.len() && #[trigger] terms.derived_streams[d] == name
            &&& writes[at].status == after_turns(terms, call, turns.take(j)).status
        },
    decreases turns.len(),
{
    let some = turns.drop_last();
    let n = some.len() as int;
    assert(some =~= turns.take(n));
    lemma_given_taken(turns, n, n);
    lemma_given_taken(turns, n, j);
    assert(turns_follow(terms, call, some)) by {
        assert forall|i: int| 0 <= i < some.len() implies may_follow(
            after_turns(terms, call, some.take(i)),
            #[trigger] some[i].0,
        ) by {
            assert(some.take(i) =~= turns.take(i));
            assert(may_follow(after_turns(terms, call, turns.take(i)), turns[i].0));
        }
    }
    if n > 0 {
        if j < n {
            law_streams_are_given_to_the_writer(terms, call, some, j);
            assert(some.take(j) =~= turns.take(j));
        } else {
            law_streams_are_given_to_the_writer(terms, call, some, 0);
        }
    } else {
        assert(after_turns(terms, call, some) == call);
    }
    let name = turns[j].0.stream_name;
    assert(may_follow(after_turns(terms, call, turns.take(j)), turns[j].0));
    lemma_streams_leave(terms, call, turns.take(j), name);
    if j == n && was_given(turns[j].1) {
        let before = after_turns(terms, call, some);
        let after = after_turns(terms, call, turns);
        assert(after.writes.last().is_derived == terms.derived_streams.contains(name));
        if terms.derived_streams.contains(name) {
            let d = choose|d: int|
                0 <= d < terms.derived_streams.len() && terms.derived_streams[d] == name;
            assert(terms.derived_streams[d] == name);
        }
    }
}

/// The status of a call is what the writer left behind last; a turn that gives the writer nothing
/// leaves it. What is reported of a turn comes behind what was reported before, and is reported of
/// a stream that was written, where it is known how many functions were applied.
pub proof fn law_turns_leave_their_status(
    terms: CallTerms,
    call: CallView,
    turn: TurnView,
    answer: AnswerView,
)
    ensures
        ({
            let after = after_turn(terms, call, turn, answer);
            &&& after.status == match answer {
                AnswerView::Written(status) => status,
                AnswerView::Failed(status) => status,
                _ => call.status,
            }
            &&& after.failed <==> call.failed || answer is Refused || answer is Failed
            &&& forall|name: Seq<char>| #[trigger]
                after.pending.contains_key(name) <==> call.pending.contains_key(name) && name
                    != turn.stream_name
            &&& after.reports.len() == call.reports.len() + if answer is Written
                && turn.data.fn_num is Some {
                1int
            } else {
                0
            }
            &&& answer matches AnswerView::Written(status) ==> (turn.data.fn_num is Some ==> {
                &&& after.reports.drop_last() == call.reports
                &&& after.reports.last().0 == turn.stream_name
                &&& Some(after.reports.last().1) == usage_of(
                    turn.stream_name,
                    terms.user_email,
                    status,
                    turn.data.fn_num,
                    terms.sizes,
                )
            })
        }),
{
    let after = after_turn(terms, call, turn, answer);
    if answer is Written && turn.data.fn_num is Some {
        assert(after.reports.drop_last() =~= call.reports);
    }
}

/// What the streams of a call and the answers to its turns say leaves nothing out.
pub proof fn law_streams_are_seen_whole(
    streams: Map<Seq<char>, (Vec<(i64, Object)>, Option<usize>)>,
    name: Seq<char>,
    status: &IngestionStatus,
)
    requires
        streams.contains_key(name),
    ensures
        streams_view(streams).dom() == streams.dom(),
        streams_view(streams)[name].records == records_view(streams[name].0@),
        streams_view(streams)[name].fn_num == streams[name].1,
        Answer::Written(status)@ == AnswerView::Written(status@),
        Answer::Failed(status)@ == AnswerView::Failed(status@),
        Answer::Refused@ is Refused,
        Answer::Deleting@ is Deleting,
{
    assert(streams_view(streams).dom() =~= streams.dom());
}

} // verus!
