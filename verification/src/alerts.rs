//! The alerts of a stream: which of them are still evaluated while the records of a request are
//! looked at one by one.

use crate::scan::STREAM_TYPE;
use crate::text::{same_text, views};
use vstd::prelude::*;
use vstd::set_lib::{lemma_int_range, lemma_len_subset, lemma_subset_equality, set_int_range};

verus! {

/// The key of an alert: its organization, the type and the name of its stream, and its own unique
/// key.
pub open spec fn alert_key_of(
    org_id: Seq<char>,
    stream_name: Seq<char>,
    unique_key: Seq<char>,
) -> Seq<char> {
    org_id + "/"@ + STREAM_TYPE@ + "/"@ + stream_name + "/"@ + unique_key
}

/// The key of an alert.
pub fn alert_key(org_id: &str, stream_name: &str, unique_key: &str) -> (result: String)
    ensures
        result@ == alert_key_of(org_id@, stream_name@, unique_key@),
{
    let mut key = org_id.to_string();
    key.append("/");
    key.append(STREAM_TYPE);
    key.append("/");
    key.append(stream_name);
    key.append("/");
    key.append(unique_key);
    key
}

/// The alerts of a stream, by their keys, and those that have been triggered.
#[derive(Debug, PartialEq)]
pub struct AlertTracker {
    keys: Vec<String>,
    triggered: Vec<usize>,
}

/// What an `AlertTracker` says.
pub struct TrackerView {
    pub keys: Seq<Seq<char>>,
    pub triggered: Seq<int>,
}

impl View for AlertTracker {
    type V = TrackerView;

    closed spec fn view(&self) -> TrackerView {
        TrackerView {
            keys: views(self.keys@),
            triggered: self.triggered@.map_values(|alert: usize| alert as int),
        }
    }
}

impl TrackerView {
    /// An alert is still evaluated: none with its key has been triggered.
    pub open spec fn due(self, alert: int) -> bool {
        forall|j: int|
            0 <= j < self.triggered.len() ==> self.keys[#[trigger] self.triggered[j]]
                != self.keys[alert]
    }

    /// The tracker with one alert more that has been triggered.
    pub open spec fn with_trigger(self, alert: int) -> TrackerView {
        TrackerView { triggered: self.triggered.push(alert), ..self }
    }

    /// Only alerts of the stream have been triggered, and of those with one key only one.
    pub open spec fn wf(self) -> bool {
        &&& forall|i: int|
            0 <= i < self.triggered.len() ==> 0 <= #[trigger] self.triggered[i] < self.keys.len()
        &&& forall|i: int, j: int|
            0 <= i < j < self.triggered.len() ==> self.keys[#[trigger] self.triggered[i]]
                != self.keys[#[trigger] self.triggered[j]]
    }
}

impl AlertTracker {
    /// A tracker for the alerts with these keys, none of which has been triggered.
    pub fn new(keys: Vec<String>) -> (result: AlertTracker)
        ensures
            result@ == (TrackerView { keys: views(keys@), triggered: Seq::empty() }),
            result@.wf(),
    {
        let result = AlertTracker { keys, triggered: Vec::new() };
        assert(result@.triggered =~= Seq::empty());
        result
    }

    /// Whether a record is looked at: there are more alerts than have been triggered.
    pub fn wants_records(&self) -> (result: bool)
        ensures
            result == (self@.triggered.len() < self@.keys.len()),
    {
        self.triggered.len() < self.keys.len()
    }

    fn is_due(&self, alert: usize) -> (result: bool)
        requires
            self@.wf(),
            alert < self@.keys.len(),
        ensures
            result == self@.due(alert as int),
    {
        let mut j: usize = 0;
        while j < self.triggered.len()
            invariant
                j <= self.triggered@.len(),
                self@.wf(),
                alert < self@.keys.len(),
                forall|k: int|
                    0 <= k < j ==> self@.keys[#[trigger] self@.triggered[k]]
                        != self@.keys[alert as int],
            decreases self.triggered.len() - j,
        {
            assert(self@.triggered[j as int] == self.triggered@[j as int]);
            if same_text(self.keys[self.triggered[j]].as_str(), self.keys[alert].as_str()) {
                return false;
            }
            j += 1;
        }
        true
    }

    /// The first alert, at a place or behind it, that is still evaluated.
    pub fn next_due(&self, from: usize) -> (result: Option<usize>)
        requires
            self@.wf(),
        ensures
            match result {
                Some(alert) => {
                    &&& from <= alert < self@.keys.len()
                    &&& self@.due(alert as int)
                    &&& forall|i: int| from <= i < alert ==> !self@.due(i)
                },
                None => forall|i: int| from <= i < self@.keys.len() ==> !self@.due(i),
            },
    {
        let mut alert: usize = from;
        while alert < self.keys.len()
            invariant
                from <= alert,
                self@.wf(),
                forall|i: int| from <= i < alert ==> !self@.due(i),
            decreases self.keys.len() - alert,
        {
            if self.is_due(alert) {
                return Some(alert);
            }
            alert += 1;
        }
        None
    }

    /// Notes whether an alert that was evaluated was triggered.
    pub fn note(&mut self, alert: usize, is_triggered: bool)
        requires
            old(self)@.wf(),
            alert < old(self)@.keys.len(),
            old(self)@.due(alert as int),
        ensures
            final(self)@ == if is_triggered {
                old(self)@.with_trigger(alert as int)
            } else {
                old(self)@
            },
            final(self)@.wf(),
    {
        if is_triggered {
            self.triggered.push(alert);
            assert(self@.triggered =~= old(self)@.triggered.push(alert as int));
        }
    }

    /// The alerts that have been triggered, in their order.
    pub fn into_triggered(self) -> (result: Vec<usize>)
        ensures
            result@.map_values(|alert: usize| alert as int) == self@.triggered,
    {
        self.triggered
    }
}

/// Once as many alerts have been triggered as there are, none is evaluated any more.
pub proof fn law_all_triggered_none_due(tracker: TrackerView, alert: int)
    requires
        tracker.wf(),
        tracker.triggered.len() >= tracker.keys.len(),
        0 <= alert < tracker.keys.len(),
    ensures
        !tracker.due(alert),
{
    let triggered = tracker.triggered;
    let n = tracker.keys.len() as int;
    assert(triggered.no_duplicates()) by {
        assert forall|i: int, j: int|
            0 <= i < triggered.len() && 0 <= j < triggered.len() && i != j implies triggered[i]
            != triggered[j] by {
            if i < j {
                assert(tracker.keys[triggered[i]] != tracker.keys[triggered[j]]);
            } else {
                assert(tracker.keys[triggered[j]] != tracker.keys[triggered[i]]);
            }
        }
    }
    triggered.unique_seq_to_set();
    let range = set_int_range(0, n);
    lemma_int_range(0, n);
    assert(triggered.to_set().subset_of(range)) by {
        assert forall|a: int| triggered.to_set().contains(a) implies range.contains(a) by {
            let j = choose|j: int| 0 <= j < triggered.len() && triggered[j] == a;
            assert(0 <= triggered[j] < n);
        }
    }
    lemma_len_subset(triggered.to_set(), range);
    lemma_subset_equality(triggered.to_set(), range);
    assert(range.contains(alert));
    assert(triggered.to_set().contains(alert));
    let j = choose|j: int| 0 <= j < triggered.len() && triggered[j] == alert;
    assert(tracker.keys[triggered[j]] == tracker.keys[alert]);
}

/// Once an alert has been triggered, no alert with its key is evaluated any more, and every other
/// alert is evaluated as before; the alerts that have been triggered stand in the order in which
/// they were.
pub proof fn law_one_trigger_for_each_key(tracker: TrackerView, triggered: int, alert: int)
    ensures
        tracker.with_trigger(triggered).due(alert) <==> tracker.due(alert) && tracker.keys[triggered]
            != tracker.keys[alert],
        tracker.with_trigger(triggered).triggered.drop_last() == tracker.triggered,
        tracker.with_trigger(triggered).triggered.last() == triggered,
        tracker.with_trigger(triggered).keys == tracker.keys,
        tracker.triggered.len() == 0 ==> tracker.due(alert),
{
    let after = tracker.with_trigger(triggered);
    assert(after.triggered.drop_last() =~= tracker.triggered);
    if tracker.due(alert) && tracker.keys[triggered] != tracker.keys[alert] {
        assert forall|j: int| 0 <= j < after.triggered.len() implies after.keys[#[trigger] after.triggered[j]]
            != after.keys[alert] by {
            if j < tracker.triggered.len() {
                assert(after.triggered[j] == tracker.triggered[j]);
            }
        }
    }
    if after.due(alert) {
        assert forall|j: int| 0 <= j < tracker.triggered.len() implies tracker.keys[#[trigger] tracker.triggered[j]]
            != tracker.keys[alert] by {
            assert(after.triggered[j] == tracker.triggered[j]);
        }
        assert(after.triggered[tracker.triggered.len() as int] == triggered);
    }
}

/// Alerts of one organisation and stream have one key only where their own keys are the same.
pub proof fn law_alert_keys_tell_alerts_apart(
    org_id: Seq<char>,
    stream_name: Seq<char>,
    one: Seq<char>,
    other: Seq<char>,
)
    ensures
        alert_key_of(org_id, stream_name, one) == org_id + "/logs/"@ + stream_name + "/"@ + one,
        alert_key_of(org_id, stream_name, one) == alert_key_of(org_id, stream_name, other) ==> one
            == other,
{
    reveal_strlit("/");
    reveal_strlit("logs");
    reveal_strlit("/logs/");
    let front = org_id + "/logs/"@ + stream_name + "/"@;
    assert(alert_key_of(org_id, stream_name, one) =~= front + one);
    assert(alert_key_of(org_id, stream_name, other) =~= front + other);
    if alert_key_of(org_id, stream_name, one) == alert_key_of(org_id, stream_name, other) {
        assert((front + one).skip(front.len() as int) =~= one);
        assert((front + other).skip(front.len() as int) =~= other);
    }
}

} // verus!
