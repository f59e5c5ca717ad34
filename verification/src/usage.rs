//! What is reported of the use of a stream once its records have been written.

use crate::dict::{first_at, has_key, key_index, keys_differ, Dict};
use crate::json::Json;
use crate::response::{
    entry_view, listed_action, BulkResponse, BulkResponseItem, IngestionStatus, ItemView,
    ResponseView, StatusView,
};
use crate::schema::CastRun;
use crate::text::option_view;
use crate::write::{note_outcomes, turned_away, WriteView};
use vstd::prelude::*;

verus! {

/// The keys under which an item holds a failure.
pub open spec fn failed_keys(item: Map<Seq<char>, ItemView>) -> Set<Seq<char>> {
    Set::new(|key: Seq<char>| item.contains_key(key) && item[key].error is Some)
}

/// How many failures a list of items holds.
pub open spec fn failures_in(items: Seq<Map<Seq<char>, ItemView>>) -> nat
    decreases items.len(),
{
    if items.len() == 0 {
        0
    } else {
        failures_in(items.drop_last()) + failed_keys(items.last()).len()
    }
}

/// How many records were dropped: the failures that were counted, or those that a bulk response
/// holds where it has its mark of errors.
pub open spec fn dropped_of(status: StatusView) -> int {
    match status {
        StatusView::Record { failed, .. } => failed,
        StatusView::Bulk(response) => if response.errors {
            failures_in(response.items) as int
        } else {
            0
        },
    }
}

/// How many failures an item holds.
fn failures_of(item: &Dict<BulkResponseItem>) -> (result: usize)
    ensures
        result == failed_keys(entry_view(*item)).len(),
{
    let ghost listed = item.listed();
    let ghost view = entry_view(*item);
    let ghost mut seen: Set<Seq<char>> = Set::empty();
    let n: usize = item.len();
    let mut failures: usize = 0;
    let mut i: usize = 0;
    while i < n
        invariant
            i <= n == listed.len(),
            listed == item.listed(),
            view == entry_view(*item),
            keys_differ(listed),
            failures <= i,
            seen.finite(),
            seen.len() == failures,
            forall|key: Seq<char>| #[trigger]
                seen.contains(key) ==> view.contains_key(key) && view[key].error is Some,
            forall|key: Seq<char>| #[trigger]
                seen.contains(key) ==> exists|j: int| 0 <= j < i && (#[trigger] listed[j]).0@ == key,
            forall|j: int|
                0 <= j < i && (#[trigger] listed[j]).1.error is Some ==> seen.contains(
                    listed[j].0@,
                ),
        decreases n - i,
    {
        let (key, outcome) = item.entry(i);
        assert(view.contains_key(key@) && view[key@] == outcome@);
        if outcome.error.is_some() {
            proof {
                if seen.contains(key@) {
                    let j = choose|j: int| 0 <= j < i && (#[trigger] listed[j]).0@ == key@;
                    assert(listed[j].0@ != listed[i as int].0@);
                }
                let more = seen.insert(key@);
                assert forall|k: Seq<char>| #[trigger] more.contains(k) implies exists|j: int|
                    0 <= j < i + 1 && (#[trigger] listed[j]).0@ == k by {
                    if k == key@ {
                        assert(listed[i as int].0@ == k);
                    }
                }
                seen = more;
            }
            failures += 1;
        }
        i += 1;
    }
    proof {
        item.lemma_listed();
        assert forall|key: Seq<char>| failed_keys(view).contains(key) implies seen.contains(
            key,
        ) by {
            assert(item@.contains_key(key));
            let j = key_index(listed, key);
            assert(has_key(listed, key));
            assert(first_at(listed, key, j));
            assert(listed[j].0@ == key);
            assert(view[key] == item@[key]@);
        }
        assert(seen =~= failed_keys(view));
    }
    failures
}

/// How many failures the items of a response hold, where that fits.
fn count_failures(response: &BulkResponse) -> (result: Option<i64>)
    ensures
        match result {
            Some(count) => count == failures_in(response@.items),
            None => failures_in(response@.items) > i64::MAX,
        },
{
    let ghost all = response@.items;
    let mut count: i64 = 0;
    let mut i: usize = 0;
    while i < response.items.len()
        invariant
            i <= response.items@.len(),
            all == response@.items,
            0 <= count == failures_in(all.take(i as int)),
        decreases response.items.len() - i,
    {
        let failures = failures_of(&response.items[i]);
        proof {
            assert(all.take(i + 1).drop_last() =~= all.take(i as int));
            assert(all.take(i + 1).last() == entry_view(response.items@[i as int]));
            lemma_failures_grow(all, i + 1);
        }
        if failures as u64 > (i64::MAX - count) as u64 {
            return None;
        }
        count += failures as i64;
        i += 1;
    }
    assert(all.take(i as int) =~= all);
    Some(count)
}

/// The first items hold no more failures than all of them.
proof fn lemma_failures_grow(items: Seq<Map<Seq<char>, ItemView>>, n: int)
    requires
        0 <= n <= items.len(),
    ensures
        failures_in(items.take(n)) <= failures_in(items),
    decreases items.len() - n,
{
    if n == items.len() {
        assert(items.take(n) =~= items);
    } else {
        lemma_failures_grow(items, n + 1);
        assert(items.take(n + 1).drop_last() =~= items.take(n));
    }
}

/// Whether the number of dropped records can be reported.
pub fn can_report(status: &IngestionStatus) -> (result: bool)
    ensures
        result == (dropped_of(status@) <= i64::MAX),
{
    match status {
        IngestionStatus::Record(_) => true,
        IngestionStatus::Bulk(response) => !response.errors || count_failures(response).is_some(),
    }
}

/// How many records were dropped.
pub fn dropped_records(status: &IngestionStatus) -> (result: i64)
    requires
        dropped_of(status@) <= i64::MAX,
    ensures
        result == dropped_of(status@),
{
    match status {
        IngestionStatus::Record(counts) => counts.failed as i64,
        IngestionStatus::Bulk(response) => if response.errors {
            count_failures(response).unwrap()
        } else {
            0
        },
    }
}

/// What is reported of the use of a stream, besides what the writer measured.
#[derive(Debug, PartialEq)]
pub struct UsageReport {
    /// The user who sent the records, where one is known.
    pub user_email: Option<String>,
    /// How many records were dropped.
    pub dropped_records: i64,
    /// The size that the user sent, in bytes, which stands for the measured size.
    pub size: Option<usize>,
    /// How many functions were applied.
    pub functions: u16,
}

/// What a `UsageReport` says.
pub struct UsageView {
    pub user_email: Option<Seq<char>>,
    pub dropped_records: int,
    pub size: Option<usize>,
    pub functions: int,
}

impl View for UsageReport {
    type V = UsageView;

    open spec fn view(&self) -> UsageView {
        UsageView {
            user_email: option_view(self.user_email),
            dropped_records: self.dropped_records as int,
            size: self.size,
            functions: self.functions as int,
        }
    }
}

/// What an optional report says.
pub open spec fn report_view(report: Option<UsageReport>) -> Option<UsageView> {
    match report {
        Some(report) => Some(report@),
        None => None,
    }
}

/// What is reported of the use of a stream: who sent the records, where that is known, how many
/// were dropped, the size that the stream has among the sizes, and the lowest sixteen bits of the
/// number of functions. There is a report where that number is known.
pub open spec fn usage_of(
    stream_name: Seq<char>,
    user_email: Seq<char>,
    status: StatusView,
    fn_num: Option<usize>,
    sizes: Map<Seq<char>, usize>,
) -> Option<UsageView> {
    match fn_num {
        Some(functions) => Some(
            UsageView {
                user_email: if user_email.len() == 0 {
                    None
                } else {
                    Some(user_email)
                },
                dropped_records: dropped_of(status),
                size: if sizes.contains_key(stream_name) {
                    Some(sizes[stream_name])
                } else {
                    None
                },
                functions: functions as int % 0x1_0000,
            },
        ),
        None => None,
    }
}

/// What is reported of the use of a stream: nothing where it is not known how many functions were
/// applied. Of that number the lowest sixteen bits are reported.
pub fn usage_report(
    stream_name: &str,
    user_email: &str,
    status: &IngestionStatus,
    fn_num: Option<usize>,
    byte_size_by_stream: &Dict<usize>,
) -> (result: Option<UsageReport>)
    requires
        dropped_of(status@) <= i64::MAX,
    ensures
        report_view(result) == usage_of(
            stream_name@,
            user_email@,
            status@,
            fn_num,
            byte_size_by_stream@,
        ),
{
    let functions = match fn_num {
        Some(functions) => functions,
        None => {
            return None;
        },
    };
    let user_email = if user_email.is_empty() {
        None
    } else {
        Some(user_email.to_string())
    };
    let size = match byte_size_by_stream.get(stream_name) {
        Some(size) => Some(*size),
        None => None,
    };
    let functions: u16 = (functions % 0x1_0000) as u16;
    Some(UsageReport { user_email, dropped_records: dropped_records(status), size, functions })
}

/// An item with one outcome holds one failure or none.
proof fn lemma_one_outcome(action: Seq<char>, item: ItemView)
    ensures
        failed_keys(Map::<Seq<char>, ItemView>::empty().insert(action, item)).len() == if item.error
            is Some {
            1nat
        } else {
            0
        },
{
    let keys = failed_keys(Map::<Seq<char>, ItemView>::empty().insert(action, item));
    if item.error is Some {
        assert(keys =~= Set::<Seq<char>>::empty().insert(action));
    } else {
        assert(keys =~= Set::<Seq<char>>::empty());
    }
}

/// A status whose failures are all reported: a bulk response that holds failures has its mark of
/// errors.
pub open spec fn failures_are_marked(status: StatusView) -> bool {
    match status {
        StatusView::Record { .. } => true,
        StatusView::Bulk(response) => response.errors || failures_in(response.items) == 0,
    }
}

/// Each record that does not fit the schema of its stream is reported as dropped, and no other
/// one, where the failures that were there before are reported too.
pub proof fn law_refused_records_are_dropped(
    status: StatusView,
    settings: WriteView,
    records: Seq<(i64, Map<Seq<char>, Json>)>,
    ids_matter: bool,
    runs: Seq<CastRun>,
)
    requires
        failures_are_marked(status),
    ensures
        dropped_of(note_outcomes(status, settings, records, ids_matter, runs)) == dropped_of(status)
            + turned_away(runs).len(),
        failures_are_marked(note_outcomes(status, settings, records, ids_matter, runs)),
    decreases runs.len(),
{
    if runs.len() > 0 {
        let some = runs.drop_last();
        law_refused_records_are_dropped(status, settings, records, ids_matter, some);
        let before = note_outcomes(status, settings, records, ids_matter, some);
        let after = note_outcomes(status, settings, records, ids_matter, runs);
        if let StatusView::Bulk(response) = before {
            let items = after->Bulk_0.items;
            if items != response.items {
                let item = items.last()[listed_action(Seq::empty())];
                assert(items.drop_last() =~= response.items);
                assert(items.last() == Map::<Seq<char>, ItemView>::empty().insert(
                    listed_action(Seq::empty()),
                    item,
                ));
                lemma_one_outcome(listed_action(Seq::empty()), item);
            }
        }
    }
}

/// The failures of two lists of items add up, and one item holds as many failures as it has outcomes
/// with an error.
pub proof fn law_failures_add_up(
    first: Seq<Map<Seq<char>, ItemView>>,
    second: Seq<Map<Seq<char>, ItemView>>,
    item: Map<Seq<char>, ItemView>,
)
    ensures
        failures_in(first + second) == failures_in(first) + failures_in(second),
        failures_in(seq![item]) == item.dom().filter(|key: Seq<char>| item[key].error is Some).len(),
        failures_in(Seq::empty()) == 0,
    decreases second.len(),
{
    assert(seq![item].drop_last() =~= Seq::empty());
    assert(failures_in(seq![item].drop_last()) == 0);
    assert(failed_keys(item) =~= item.dom().filter(|key: Seq<char>| item[key].error is Some));
    if second.len() == 0 {
        assert(first + second =~= first);
    } else {
        assert((first + second).drop_last() =~= first + second.drop_last());
        law_failures_add_up(first, second.drop_last(), item);
    }
}

/// What was dropped is the count of failures, or the failures among the items of a bulk response
/// that has its mark of errors; without the mark nothing was.
pub proof fn law_dropped_records_are_the_failures(
    successful: int,
    failed: int,
    error: Seq<char>,
    response: ResponseView,
)
    ensures
        dropped_of(StatusView::Record { successful, failed, error }) == failed,
        dropped_of(StatusView::Bulk(response.with_errors())) == failures_in(response.items),
        !response.errors ==> dropped_of(StatusView::Bulk(response)) == 0,
{
}

/// The use of a stream is reported exactly where it is known how many functions were applied. The
/// report names the user, unless the name is empty, tells what was dropped and, of the number of
/// functions, what is left of it by sixteen bits; it holds the size that was sent for the stream,
/// and none where none was.
pub proof fn law_usage_is_reported(
    stream_name: Seq<char>,
    user_email: Seq<char>,
    status: StatusView,
    functions: usize,
    sizes: Map<Seq<char>, usize>,
    size: usize,
)
    ensures
        usage_of(stream_name, user_email, status, None, sizes) is None,
        usage_of(stream_name, user_email, status, Some(functions), sizes) matches Some(report) && {
            &&& user_email != ""@ ==> report.user_email == Some(user_email)
            &&& user_email == ""@ ==> report.user_email is None
            &&& report.dropped_records == dropped_of(status)
            &&& 0 <= report.functions < 65536
            &&& functions < 65536 ==> report.functions == functions
            &&& (functions - report.functions) % 65536 == 0
            &&& report.size is Some <==> sizes.contains_key(stream_name)
        },
        usage_of(
            stream_name,
            user_email,
            status,
            Some(functions),
            sizes.insert(stream_name, size),
        )->Some_0.size == Some(size),
{
    reveal_strlit("");
    assert(""@ =~= Seq::empty());
    if user_email.len() == 0 {
        assert(user_email =~= ""@);
    }
}

/// What a report says leaves nothing out.
pub proof fn law_reports_are_seen_whole(report: UsageReport)
    ensures
        report@.dropped_records == report.dropped_records,
        report@.size == report.size,
        report@.functions == report.functions,
        report@.user_email is Some <==> report.user_email is Some,
        report.user_email matches Some(email) ==> report@.user_email == Some(email@),
        report_view(Some(report)) == Some(report@),
        report_view(None) is None,
{
}

} // verus!
