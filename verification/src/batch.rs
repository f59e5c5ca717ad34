//! Preparing the records of a stream for the writer: each of them is refused and answered, or put
//! into the buffer in which it is written.

use crate::dict::Dict;
use crate::json::{Json, JsonValue, Object};
use crate::records::records_view;
use crate::response::{
    created_item, failed_item, listed_action, or_empty, ErrorView, IngestionStatus, ItemView,
    StatusView, SCHEMA_CONFORMANCE_FAILED,
};
use crate::schema::CastRun;
use crate::write::{
    admit_records, admitted, bucket_of, buffered, buffered_under, buffers_view, cast_at, cast_by,
    distinct_values, distinct_values_of, doc_id_of, fill_buffers, fill_one_buffer, has_room,
    ids_matter, key_for, keyed_at, keyed_by, keyed_like,
    law_buffers_are_those_of_their_bucket, law_ids_are_those_of_the_records,
    law_outcomes_are_counted, lemma_all_admitted,
    lemma_one_key, note_outcomes, objects_view, one_buffer, refusals_view, stopped_behind,
    takes_one_buffer, turned_away, uncast, AdmitStop, PartitionTimeLevel, WriteSettings, WriteView,
};
use vstd::prelude::*;

verus! {

/// What is written of the records of a stream, and what is done besides.
#[derive(Debug, PartialEq)]
pub struct Prepared {
    /// The records that are written, by buffer.
    pub buffers: Dict<Vec<JsonValue>>,
    /// The records on which the alerts of the stream are evaluated.
    pub watched: Vec<Object>,
    /// The distinct values of the records that are written.
    pub distinct: Vec<Object>,
    /// The records that were refused, with the reasons.
    pub refused: Vec<(Object, String)>,
}

/// The records without their timestamps.
pub open spec fn untimed(records: Seq<(i64, Map<Seq<char>, Json>)>) -> Seq<Map<Seq<char>, Json>> {
    records.map_values(|record: (i64, Map<Seq<char>, Json>)| record.1)
}

/// What is prepared of records whose castings came to `runs`, where those that were admitted go to
/// the buffers `keys`.
pub open spec fn holds_batch(
    prepared: Prepared,
    settings: WriteView,
    records: Seq<(i64, Map<Seq<char>, Json>)>,
    runs: Seq<CastRun>,
    keys: Seq<Seq<char>>,
) -> bool {
    let taken = admitted(records, runs);
    &&& buffers_view(prepared.buffers@) == buffered(taken, keys)
    &&& objects_view(prepared.watched@) == if settings.has_alerts {
        untimed(taken)
    } else {
        Seq::empty()
    }
    &&& objects_view(prepared.distinct@) == if settings.distinct {
        distinct_values_of(taken, settings.distinct_fields)
    } else {
        Seq::empty()
    }
    &&& refusals_view(prepared.refused@) == turned_away(runs)
}

/// What is prepared of records whose castings came to `runs`. The buffer of a record is one that
/// `partition_key` may give.
pub open spec fn prepared_from<K: Fn(i64, &Object) -> String>(
    partition_key: K,
    settings: WriteView,
    records: Seq<(i64, Map<Seq<char>, Json>)>,
    runs: Seq<CastRun>,
    prepared: Prepared,
) -> bool {
    exists|keys: Seq<Seq<char>>| #[trigger]
        keyed_by(partition_key, admitted(records, runs), settings, keys) && holds_batch(
            prepared,
            settings,
            records,
            runs,
            keys,
        )
}

/// The records on which alerts are evaluated: all that are written, where the stream has alerts.
fn watched_records(records: &Vec<(i64, Object)>, has_alerts: bool) -> (result: Vec<Object>)
    ensures
        objects_view(result@) == if has_alerts {
            untimed(records_view(records@))
        } else {
            Seq::empty()
        },
{
    let mut watched: Vec<Object> = Vec::new();
    assert(objects_view(watched@) =~= Seq::empty());
    if !has_alerts {
        return watched;
    }
    let ghost all = untimed(records_view(records@));
    assert(all.take(0) =~= Seq::empty());
    let mut i: usize = 0;
    while i < records.len()
        invariant
            i <= records@.len(),
            all == untimed(records_view(records@)),
            objects_view(watched@) == all.take(i as int),
        decreases records.len() - i,
    {
        let ghost before = watched@;
        watched.push(records[i].1.clone());
        proof {
            assert(objects_view(watched@) =~= objects_view(before).push(records@[i as int].1@));
            assert(all.take(i + 1) =~= all.take(i as int).push(records@[i as int].1@));
        }
        i += 1;
    }
    assert(all.take(i as int) =~= all);
    watched
}

/// Records that go to one buffer at once are prepared as they would be one by one.
proof fn lemma_one_buffer_prepared<
    F: Fn(&JsonValue) -> String,
    K: Fn(i64, &Object) -> String,
>(
    render: F,
    partition_key: K,
    records: Seq<(i64, Map<Seq<char>, Json>)>,
    settings: WriteView,
    key: Seq<char>,
    prepared: Prepared,
)
    requires
        one_buffer(records, settings),
        key_for(partition_key, records[0].0, records[0].1, key),
        buffers_view(prepared.buffers@) == Map::<Seq<char>, Seq<Json>>::empty().insert(
            key,
            Seq::new(records.len(), |i: int| Json::Object(records[i].1)),
        ),
        prepared.watched@.len() == 0,
        prepared.distinct@.len() == 0,
        prepared.refused@.len() == 0,
    ensures
        cast_by(render, settings, records, uncast(records)),
        prepared_from(partition_key, settings, records, uncast(records), prepared),
{
    let runs = uncast(records);
    assert forall|i: int| 0 <= i < runs.len() implies cast_at(
        render,
        settings,
        records[i].1,
        ids_matter(records, settings),
        #[trigger] runs[i],
    ) by {}
    lemma_all_admitted(records, runs);
    assert(records.take(runs.len() as int) =~= records);
    let keys: Seq<Seq<char>> = Seq::new(records.len(), |i: int| key);
    assert forall|i: int| 0 <= i < keys.len() implies #[trigger] keyed_at(
        partition_key,
        records,
        settings,
        keys,
        i,
    ) by {
        if i > 0 {
            assert(bucket_of(records[i - 1].0, settings.time_level) == bucket_of(
                records[0].0,
                settings.time_level,
            ));
        }
    }
    assert(keyed_by(partition_key, records, settings, keys));
    lemma_one_key(records, keys, key);
    assert(buffered(records, keys) =~= buffers_view(prepared.buffers@));
    assert(objects_view(prepared.watched@) =~= Seq::empty());
    assert(objects_view(prepared.distinct@) =~= Seq::empty());
    assert(refusals_view(prepared.refused@) =~= turned_away(runs));
    assert(holds_batch(prepared, settings, records, runs, keys));
}

/// Prepares the records of a stream: those that fit its schema are put into buffers, the others are
/// refused, and the outcome of each is noted. All records go to one buffer at once where they need
/// not be looked at one by one. Where a record stops it, the outcomes of the records before it are
/// noted. `get_string_value` gives the text of a value that is no string, and `partition_key` the
/// buffer of a record.
pub fn prepare_batch<F: Fn(&JsonValue) -> String, K: Fn(i64, &Object) -> String>(
    records: Vec<(i64, Object)>,
    settings: &WriteSettings,
    status: &mut IngestionStatus,
    get_string_value: &F,
    partition_key: &K,
) -> (result: Result<Prepared, AdmitStop>)
    requires
        forall|x: &JsonValue| get_string_value.requires((x,)),
        forall|timestamp: i64, record: &Object| partition_key.requires((timestamp, record)),
    ensures
        exists|runs: Seq<CastRun>| #[trigger]
            cast_by(*get_string_value, settings@, records_view(records@), runs) && final(status)@
                == note_outcomes(
                old(status)@,
                settings@,
                records_view(records@),
                ids_matter(records_view(records@), settings@),
                runs,
            ) && match result {
                Ok(prepared) => runs.len() == records@.len() && prepared_from(
                    *partition_key,
                    settings@,
                    records_view(records@),
                    runs,
                    prepared,
                ),
                Err(reason) => stopped_behind(
                    *get_string_value,
                    settings@,
                    records_view(records@),
                    final(status)@,
                    runs,
                    reason,
                ),
            },
{
    let ghost all = records_view(records@);
    if takes_one_buffer(&records, settings) && has_room(status, records.len()) {
        let ghost given = records@;
        let buffers = fill_one_buffer(records, settings, status, partition_key);
        let prepared = Prepared {
            buffers,
            watched: Vec::new(),
            distinct: Vec::new(),
            refused: Vec::new(),
        };
        proof {
            let values = Seq::new(given.len(), |i: int| Json::Object(given[i].1@));
            let key = choose|key: Seq<char>| #[trigger]
                key_for(*partition_key, given[0].0, given[0].1@, key) && buffers_view(buffers@)
                    == Map::<Seq<char>, Seq<Json>>::empty().insert(key, values);
            assert(values =~= Seq::new(all.len(), |i: int| Json::Object(all[i].1)));
            lemma_one_buffer_prepared(
                *get_string_value,
                *partition_key,
                all,
                settings@,
                key,
                prepared,
            );
        }
        return Ok(prepared);
    }
    let admission = match admit_records(records, settings, status, get_string_value) {
        Ok(admission) => admission,
        Err(reason) => {
            return Err(reason);
        },
    };
    let watched = watched_records(&admission.admitted, settings.has_alerts());
    let distinct = distinct_values(&admission.admitted, settings);
    let buffers = fill_buffers(admission.admitted, settings, partition_key);
    Ok(Prepared { buffers, watched, distinct, refused: admission.refused })
}

/// How many of the first records were admitted.
pub open spec fn admitted_before(runs: Seq<CastRun>, i: int) -> int
    decreases i,
{
    if i <= 0 {
        0
    } else {
        admitted_before(runs, i - 1) + if runs[i - 1].message.len() == 0 {
            1int
        } else {
            0
        }
    }
}

/// How many of the first records that were admitted go to a buffer.
pub open spec fn buffered_before(keys: Seq<Seq<char>>, key: Seq<char>, p: int) -> int
    decreases p,
{
    if p <= 0 {
        0
    } else {
        buffered_before(keys, key, p - 1) + if keys[p - 1] == key {
            1int
        } else {
            0
        }
    }
}

/// The record `i` of a batch is written in the buffer `key`, as its value `k`: it is admitted, the
/// buffer is its own, and `k` records before it go there.
pub open spec fn stands_at(
    runs: Seq<CastRun>,
    keys: Seq<Seq<char>>,
    i: int,
    key: Seq<char>,
    k: int,
) -> bool {
    &&& 0 <= i < runs.len()
    &&& runs[i].message.len() == 0
    &&& keys[admitted_before(runs, i)] == key
    &&& k == buffered_before(keys, key, admitted_before(runs, i))
}

proof fn lemma_admitted_taken(runs: Seq<CastRun>, n: int, i: int)
    requires
        0 <= i <= n <= runs.len(),
    ensures
        admitted_before(runs.take(n), i) == admitted_before(runs, i),
    decreases i,
{
    if i > 0 {
        lemma_admitted_taken(runs, n, i - 1);
    }
}

proof fn lemma_buffered_taken(keys: Seq<Seq<char>>, key: Seq<char>, n: int, p: int)
    requires
        0 <= p <= n <= keys.len(),
    ensures
        buffered_before(keys.take(n), key, p) == buffered_before(keys, key, p),
    decreases p,
{
    if p > 0 {
        lemma_buffered_taken(keys, key, n, p - 1);
    }
}

/// The more records, the more of them are admitted.
proof fn lemma_admitted_grows(runs: Seq<CastRun>, i: int, j: int)
    requires
        0 <= i <= j,
    ensures
        0 <= admitted_before(runs, i) <= admitted_before(runs, j),
        admitted_before(runs, j) - admitted_before(runs, i) <= j - i,
        i < j && runs[i].message.len() == 0 ==> admitted_before(runs, i) < admitted_before(runs, j),
    decreases j,
{
    if i < j {
        lemma_admitted_grows(runs, i, j - 1);
    } else if i > 0 {
        lemma_admitted_grows(runs, i - 1, i - 1);
    }
}

/// The more records, the more of them go to a buffer.
proof fn lemma_buffered_grows(keys: Seq<Seq<char>>, key: Seq<char>, p: int, q: int)
    requires
        0 <= p <= q,
    ensures
        0 <= buffered_before(keys, key, p) <= buffered_before(keys, key, q),
        p < q && keys[p] == key ==> buffered_before(keys, key, p) < buffered_before(keys, key, q),
    decreases q,
{
    if p < q {
        lemma_buffered_grows(keys, key, p, q - 1);
    } else if p > 0 {
        lemma_buffered_grows(keys, key, p - 1, p - 1);
    }
}

/// Where the outcome of a record stands among those that were admitted or refused.
proof fn lemma_outcome_place(records: Seq<(i64, Map<Seq<char>, Json>)>, runs: Seq<CastRun>, i: int)
    requires
        0 <= i < runs.len(),
    ensures
        admitted(records, runs).len() == admitted_before(runs, runs.len() as int),
        turned_away(runs).len() == runs.len() - admitted_before(runs, runs.len() as int),
        ({
            let p = admitted_before(runs, i);
            if runs[i].message.len() == 0 {
                &&& 0 <= p < admitted(records, runs).len()
                &&& admitted(records, runs)[p] == (records[i].0, runs[i].record)
            } else {
                &&& 0 <= i - p < turned_away(runs).len()
                &&& turned_away(runs)[i - p] == (runs[i].record, runs[i].message)
            }
        }),
    decreases runs.len(),
{
    let some = runs.drop_last();
    let n = some.len() as int;
    assert(some =~= runs.take(n));
    lemma_admitted_taken(runs, n, n);
    lemma_admitted_taken(runs, n, i);
    lemma_admitted_grows(runs, 0, i);
    lemma_admitted_grows(runs, i, n);
    if n > 0 {
        if i < n {
            lemma_outcome_place(records, some, i);
        } else {
            lemma_outcome_place(records, some, 0);
        }
    } else {
        assert(admitted(records, some).len() == 0);
        assert(turned_away(some).len() == 0);
        assert(admitted_before(runs, 0) == 0);
    }
}

/// Where a record stands in its buffer.
proof fn lemma_buffer_place(
    records: Seq<(i64, Map<Seq<char>, Json>)>,
    keys: Seq<Seq<char>>,
    key: Seq<char>,
    p: int,
)
    requires
        0 <= p <= keys.len(),
    ensures
        buffered_under(records, keys, key).len() == buffered_before(keys, key, keys.len() as int),
        p < keys.len() && keys[p] == key ==> {
            let k = buffered_before(keys, key, p);
            &&& 0 <= k < buffered_under(records, keys, key).len()
            &&& buffered_under(records, keys, key)[k] == Json::Object(records[p].1)
        },
    decreases keys.len(),
{
    if keys.len() > 0 {
        let some = keys.drop_last();
        let n = some.len() as int;
        assert(some =~= keys.take(n));
        lemma_buffered_taken(keys, key, n, n);
        if p <= n {
            lemma_buffered_taken(keys, key, n, p);
            lemma_buffer_place(records, some, key, p);
            lemma_buffered_grows(keys, key, 0, p);
        } else {
            lemma_buffer_place(records, some, key, n);
        }
    }
}

/// Each record of a batch is refused with a reason, or stands once, as it was cast, in the buffer
/// of its key, and nowhere else.
pub proof fn law_records_are_refused_or_buffered(
    records: Seq<(i64, Map<Seq<char>, Json>)>,
    runs: Seq<CastRun>,
    keys: Seq<Seq<char>>,
    i: int,
)
    requires
        runs.len() <= records.len(),
        keys.len() == admitted(records, runs).len(),
        0 <= i < runs.len(),
    ensures
        ({
            let buffers = buffered(admitted(records, runs), keys);
            let p = admitted_before(runs, i);
            let key = keys[p];
            let k = buffered_before(keys, key, p);
            if runs[i].message.len() == 0 {
                &&& 0 <= p < keys.len()
                &&& admitted(records, runs)[p] == (records[i].0, runs[i].record)
                &&& stands_at(runs, keys, i, key, k)
                &&& buffers.contains_key(key)
                &&& 0 <= k < buffers[key].len()
                &&& buffers[key][k] == Json::Object(runs[i].record)
                &&& forall|other: Seq<char>, m: int|
                    #[trigger] stands_at(runs, keys, i, other, m) ==> other == key && m == k
            } else {
                &&& 0 <= i - p < turned_away(runs).len()
                &&& turned_away(runs)[i - p] == (runs[i].record, runs[i].message)
                &&& forall|other: Seq<char>, m: int| !#[trigger] stands_at(runs, keys, i, other, m)
            }
        }),
{
    lemma_outcome_place(records, runs, i);
    let p = admitted_before(runs, i);
    if runs[i].message.len() == 0 {
        lemma_buffer_place(admitted(records, runs), keys, keys[p], p);
    }
}

/// The first place at which one more record than `m` was admitted.
proof fn lemma_admitted_at(runs: Seq<CastRun>, n: int, m: int) -> (i: int)
    requires
        0 <= m < admitted_before(runs, n),
        n <= runs.len(),
    ensures
        0 <= i < n,
        runs[i].message.len() == 0,
        admitted_before(runs, i) == m,
    decreases n,
{
    if m < admitted_before(runs, n - 1) {
        lemma_admitted_at(runs, n - 1, m)
    } else {
        n - 1
    }
}

/// The record that is the value `k` of a buffer, among those that were admitted.
proof fn lemma_buffered_at(keys: Seq<Seq<char>>, key: Seq<char>, n: int, k: int) -> (p: int)
    requires
        0 <= k < buffered_before(keys, key, n),
        n <= keys.len(),
    ensures
        0 <= p < n,
        keys[p] == key,
        buffered_before(keys, key, p) == k,
    decreases n,
{
    if k < buffered_before(keys, key, n - 1) {
        lemma_buffered_at(keys, key, n - 1, k)
    } else {
        n - 1
    }
}

/// The records of a buffer stand in it in the order of the batch: of two records, the one that
/// comes first stands first, so that no two stand at one place.
pub proof fn law_buffers_keep_the_order(
    runs: Seq<CastRun>,
    keys: Seq<Seq<char>>,
    i: int,
    j: int,
    key: Seq<char>,
    k: int,
    m: int,
)
    requires
        stands_at(runs, keys, i, key, k),
        stands_at(runs, keys, j, key, m),
    ensures
        i < j ==> k < m,
        i == j ==> k == m,
        i > j ==> k > m,
{
    let (p, q) = (admitted_before(runs, i), admitted_before(runs, j));
    lemma_admitted_grows(runs, 0, i);
    lemma_admitted_grows(runs, 0, j);
    if i < j {
        lemma_admitted_grows(runs, i, j);
        lemma_buffered_grows(keys, key, p, q);
    } else if j < i {
        lemma_admitted_grows(runs, j, i);
        lemma_buffered_grows(keys, key, q, p);
    }
}

/// Nothing stands in a buffer but the records of the batch: each of its values is one record, as it
/// was cast, and the record is the only one at its place.
pub proof fn law_buffers_hold_the_batch_alone(
    records: Seq<(i64, Map<Seq<char>, Json>)>,
    runs: Seq<CastRun>,
    keys: Seq<Seq<char>>,
    key: Seq<char>,
    k: int,
)
    requires
        runs.len() <= records.len(),
        keys.len() == admitted(records, runs).len(),
        buffered(admitted(records, runs), keys).contains_key(key),
        0 <= k < buffered(admitted(records, runs), keys)[key].len(),
    ensures
        exists|i: int| #[trigger]
            stands_at(runs, keys, i, key, k) && buffered(admitted(records, runs), keys)[key][k]
                == Json::Object(runs[i].record),
        forall|i: int, j: int|
            #[trigger] stands_at(runs, keys, i, key, k) && #[trigger] stands_at(
                runs,
                keys,
                j,
                key,
                k,
            ) ==> i == j,
{
    let taken = admitted(records, runs);
    let n = keys.len() as int;
    lemma_buffer_place(taken, keys, key, n);
    let p = lemma_buffered_at(keys, key, n, k);
    lemma_buffer_place(taken, keys, key, p);
    if runs.len() > 0 {
        lemma_outcome_place(records, runs, 0);
    }
    let i = lemma_admitted_at(runs, runs.len() as int, p);
    lemma_outcome_place(records, runs, i);
    assert(stands_at(runs, keys, i, key, k));
    assert forall|a: int, b: int|
        #[trigger] stands_at(runs, keys, a, key, k) && #[trigger] stands_at(
            runs,
            keys,
            b,
            key,
            k,
        ) implies a == b by {
        law_buffers_keep_the_order(runs, keys, a, b, key, k, k);
    }
}

/// The answer to a record of a stream.
pub open spec fn answer_to(
    settings: WriteView,
    doc_id: Option<Seq<char>>,
    run: CastRun,
) -> Map<Seq<char>, ItemView> {
    Map::<Seq<char>, ItemView>::empty().insert(
        listed_action(Seq::empty()),
        if run.message.len() == 0 {
            created_item(settings.stream_name, or_empty(doc_id))
        } else {
            failed_item(
                settings.stream_name,
                or_empty(doc_id),
                SCHEMA_CONFORMANCE_FAILED@,
                run.message,
                Some(Json::Object(run.record)),
            )
        },
    )
}

/// Each record of a batch is answered in a bulk response, in the order of the batch: a record that
/// was refused with the reason and the record, any other as taken in. Where only errors are
/// answered, the answers are those to the refused records.
pub proof fn law_each_record_is_answered(
    status: StatusView,
    settings: WriteView,
    records: Seq<(i64, Map<Seq<char>, Json>)>,
    ids_matter: bool,
    runs: Seq<CastRun>,
    i: int,
)
    requires
        status is Bulk,
        0 <= i < runs.len(),
        settings.errors_only ==> runs[i].message.len() > 0,
    ensures
        ({
            let before = status->Bulk_0.items;
            let after = note_outcomes(status, settings, records, ids_matter, runs)->Bulk_0.items;
            let at = before.len() + if settings.errors_only {
                i - admitted_before(runs, i)
            } else {
                i
            };
            &&& 0 <= at < after.len()
            &&& after[at] == answer_to(settings, doc_id_of(records[i].1, ids_matter), runs[i])
        }),
    decreases runs.len(),
{
    let some = runs.drop_last();
    let n = some.len() as int;
    assert(some =~= runs.take(n));
    lemma_admitted_taken(runs, n, i);
    lemma_admitted_grows(runs, 0, i);
    law_outcomes_are_counted(status, settings, records, ids_matter, some);
    law_outcomes_are_counted(status, settings, records, ids_matter, runs);
    if i < n {
        law_each_record_is_answered(status, settings, records, ids_matter, some, i);
        assert(some[i] == runs[i]);
    } else if n > 0 {
        lemma_outcome_place(records, some, 0);
    }
}

/// Each record of a batch has its answer in a bulk response, under `index`, with the name of the
/// stream and, where successes are answered too, the document id that the record has. A record that
/// fits is answered as taken in; one that does not is answered with the reason and as it was cast.
pub proof fn law_answers_name_their_records(
    status: StatusView,
    settings: WriteView,
    records: Seq<(i64, Map<Seq<char>, Json>)>,
    runs: Seq<CastRun>,
    i: int,
)
    requires
        status is Bulk,
        0 <= i < runs.len() <= records.len(),
        settings.errors_only ==> runs[i].message.len() > 0,
    ensures
        ({
            let before = status->Bulk_0.items;
            let after = note_outcomes(
                status,
                settings,
                records,
                ids_matter(records, settings),
                runs,
            )->Bulk_0.items;
            let at = before.len() + if settings.errors_only {
                i - admitted_before(runs, i)
            } else {
                i
            };
            let id = if !settings.errors_only && records[i].1.contains_key("_id"@)
                && records[i].1["_id"@] is String {
                records[i].1["_id"@]->String_0
            } else {
                Seq::empty()
            };
            &&& 0 <= at < after.len()
            &&& after[at] == Map::<Seq<char>, ItemView>::empty().insert(
                "index"@,
                if runs[i].message.len() == 0 {
                    ItemView {
                        index: settings.stream_name,
                        id,
                        status: 200,
                        error: None,
                        original_record: None,
                        stream_name: settings.stream_name,
                    }
                } else {
                    ItemView {
                        index: settings.stream_name,
                        id,
                        status: 422,
                        error: Some(
                            ErrorView {
                                err_type: "schema_conformance_failed"@,
                                index: settings.stream_name,
                                reason: runs[i].message,
                                shard: "0"@,
                            },
                        ),
                        original_record: Some(Json::Object(runs[i].record)),
                        stream_name: settings.stream_name,
                    }
                },
            )
        }),
{
    law_each_record_is_answered(
        status,
        settings,
        records,
        ids_matter(records, settings),
        runs,
        i,
    );
    law_ids_are_those_of_the_records(records, settings, i);
}

/// Where a stream has alerts, they are evaluated on every record that is written, as it was cast and
/// in order, and where it has none on no record; where it asks for distinct values, they are those
/// of the records that are written, and where it does not there are none. Every record that was
/// refused is told.
pub proof fn law_nothing_is_left_out_of_a_batch(
    prepared: Prepared,
    settings: WriteView,
    records: Seq<(i64, Map<Seq<char>, Json>)>,
    runs: Seq<CastRun>,
    keys: Seq<Seq<char>>,
    i: int,
)
    requires
        holds_batch(prepared, settings, records, runs, keys),
        0 <= i < runs.len() <= records.len(),
    ensures
        prepared.watched@.len() == if settings.has_alerts {
            admitted_before(runs, runs.len() as int)
        } else {
            0
        },
        settings.has_alerts && runs[i].message.len() == 0 ==> {
            &&& 0 <= admitted_before(runs, i) < prepared.watched@.len()
            &&& prepared.watched@[admitted_before(runs, i)]@ == runs[i].record
        },
        !settings.distinct ==> prepared.distinct@.len() == 0,
        settings.distinct ==> objects_view(prepared.distinct@) == distinct_values_of(
            admitted(records, runs),
            settings.distinct_fields,
        ),
        prepared.refused@.len() == runs.len() - admitted_before(runs, runs.len() as int),
        runs[i].message.len() > 0 ==> {
            let k = i - admitted_before(runs, i);
            &&& 0 <= k < prepared.refused@.len()
            &&& prepared.refused@[k].0@ == runs[i].record
            &&& prepared.refused@[k].1@ == runs[i].message
        },
{
    lemma_outcome_place(records, runs, i);
    assert(objects_view(prepared.watched@).len() == prepared.watched@.len());
    assert(objects_view(prepared.distinct@).len() == prepared.distinct@.len());
    assert(refusals_view(prepared.refused@).len() == prepared.refused@.len());
    let p = admitted_before(runs, i);
    if settings.has_alerts && runs[i].message.len() == 0 {
        assert(objects_view(prepared.watched@)[p] == prepared.watched@[p]@);
        assert(untimed(admitted(records, runs))[p] == admitted(records, runs)[p].1);
    }
    if runs[i].message.len() > 0 {
        assert(refusals_view(prepared.refused@)[i - p] == turned_away(runs)[i - p]);
    }
}

/// What is prepared of a batch is what is written: each record that was admitted is a value of the
/// buffer of its key, as it was cast and behind the records before it that go there, and each buffer
/// holds as many values as records that go to it.
pub proof fn law_prepared_buffers_hold_the_batch<K: Fn(i64, &Object) -> String>(
    partition_key: K,
    prepared: Prepared,
    settings: WriteView,
    records: Seq<(i64, Map<Seq<char>, Json>)>,
    runs: Seq<CastRun>,
    keys: Seq<Seq<char>>,
    i: int,
)
    requires
        keyed_by(partition_key, admitted(records, runs), settings, keys),
        holds_batch(prepared, settings, records, runs, keys),
        0 <= i < runs.len() <= records.len(),
    ensures
        keys.len() == admitted_before(runs, runs.len() as int),
        forall|key: Seq<char>| #[trigger]
            prepared.buffers@.contains_key(key) <==> exists|p: int|
                0 <= p < keys.len() && #[trigger] keys[p] == key,
        forall|key: Seq<char>| #[trigger]
            prepared.buffers@.contains_key(key) ==> prepared.buffers@[key]@.len()
                == buffered_before(keys, key, keys.len() as int),
        runs[i].message.len() == 0 ==> {
            let p = admitted_before(runs, i);
            let k = buffered_before(keys, keys[p], p);
            &&& 0 <= p < keys.len()
            &&& prepared.buffers@.contains_key(keys[p])
            &&& 0 <= k < prepared.buffers@[keys[p]]@.len()
            &&& prepared.buffers@[keys[p]]@[k]@ == Json::Object(runs[i].record)
        },
{
    let taken = admitted(records, runs);
    let n = keys.len() as int;
    lemma_outcome_place(records, runs, i);
    law_records_are_refused_or_buffered(records, runs, keys, i);
    let buffers = prepared.buffers@;
    let view = buffers_view(buffers);
    assert forall|key: Seq<char>| #[trigger] buffers.contains_key(key) <==> exists|p: int|
        0 <= p < keys.len() && #[trigger] keys[p] == key by {
        assert(view.contains_key(key) == buffers.contains_key(key));
        lemma_buffer_place(taken, keys, key, n);
        if buffers.contains_key(key) {
            let p = lemma_buffered_at(keys, key, n, 0);
            assert(keys[p] == key);
        }
        if exists|p: int| 0 <= p < keys.len() && #[trigger] keys[p] == key {
            let p = choose|p: int| 0 <= p < keys.len() && #[trigger] keys[p] == key;
            lemma_buffer_place(taken, keys, key, p);
        }
    }
    assert forall|key: Seq<char>| #[trigger] buffers.contains_key(key) implies buffers[key]@.len()
        == buffered_before(keys, key, n) by {
        assert(view.contains_key(key));
        assert(view[key].len() == buffers[key]@.len());
        lemma_buffer_place(taken, keys, key, n);
    }
    if runs[i].message.len() == 0 {
        let p = admitted_before(runs, i);
        let k = buffered_before(keys, keys[p], p);
        assert(view.contains_key(keys[p]));
        assert(view[keys[p]][k] == buffers[keys[p]]@[k]@);
    }
}

/// The buffer of a record is one that the function may give for a record of the same day or hour.
pub open spec fn has_key_of_its_bucket<K: Fn(i64, &Object) -> String>(
    partition_key: K,
    records: Seq<(i64, Map<Seq<char>, Json>)>,
    level: PartitionTimeLevel,
    keys: Seq<Seq<char>>,
    p: int,
) -> bool {
    exists|j: int| #[trigger] keyed_like(partition_key, records, level, keys, p, j)
}

/// A batch that is prepared has a buffer for each record that was admitted, one that the function
/// may give for a record of the same day or hour, and holds what those buffers hold.
pub proof fn law_prepared_batches_have_their_buffers<K: Fn(i64, &Object) -> String>(
    partition_key: K,
    settings: WriteView,
    records: Seq<(i64, Map<Seq<char>, Json>)>,
    runs: Seq<CastRun>,
    prepared: Prepared,
)
    requires
        prepared_from(partition_key, settings, records, runs, prepared),
    ensures
        exists|keys: Seq<Seq<char>>|
            {
                &&& #[trigger] holds_batch(prepared, settings, records, runs, keys)
                &&& keys.len() == admitted(records, runs).len()
                &&& forall|p: int|
                    0 <= p < keys.len() ==> #[trigger] has_key_of_its_bucket(
                        partition_key,
                        admitted(records, runs),
                        settings.time_level,
                        keys,
                        p,
                    )
            },
{
    let taken = admitted(records, runs);
    let keys = choose|keys: Seq<Seq<char>>| #[trigger]
        keyed_by(partition_key, taken, settings, keys) && holds_batch(
            prepared,
            settings,
            records,
            runs,
            keys,
        );
    assert forall|p: int| 0 <= p < keys.len() implies #[trigger] has_key_of_its_bucket(
        partition_key,
        taken,
        settings.time_level,
        keys,
        p,
    ) by {
        law_buffers_are_those_of_their_bucket(partition_key, taken, settings, keys, p);
    }
    assert(holds_batch(prepared, settings, records, runs, keys));
}

} // verus!
