//! What every rebuild of the flyby queue guarantees.

use vstd::prelude::*;
use crate::calendar::CalEvent;
use crate::scheduler::{
    add_event, add_events, after_ekit, carry_job, carry_jobs, count_not_after, empty_state,
    event_job, event_key, insert_by_time, job_tag, lemma_add_grows, lemma_carry_grows, queue_jobs,
    rebuild_state, rebuilt_queue, within, JobView, RebuildState, Source,
};

verus! {

proof fn lemma_count_range(q: Seq<(int, JobView)>, f: int)
    ensures
        0 <= count_not_after(q, f) <= q.len(),
    decreases q.len(),
{
    if q.len() > 0 {
        lemma_count_range(q.drop_last(), f);
    }
}

/// Where each entry of a queue lands after one insertion.
proof fn lemma_insert_index(q: Seq<(int, JobView)>, f: int, j: JobView)
    ensures
        ({
            let r = insert_by_time(q, f, j);
            let p = count_not_after(q, f);
            &&& r.len() == q.len() + 1
            &&& 0 <= p <= q.len()
            &&& r[p] == (f, j)
            &&& forall|k: int| 0 <= k < p ==> r[k] == q[k]
            &&& forall|k: int| p < k < r.len() ==> r[k] == q[k - 1]
        }),
{
    lemma_count_range(q, f);
}

/// Entries after one insertion: the old ones and the new one.
proof fn lemma_insert_contains(q: Seq<(int, JobView)>, f: int, j: JobView)
    ensures
        forall|x: (int, JobView)|
            #[trigger] insert_by_time(q, f, j).contains(x) <==> q.contains(x) || x == (f, j),
{
    lemma_insert_index(q, f, j);
    let r = insert_by_time(q, f, j);
    let p = count_not_after(q, f);
    assert forall|x: (int, JobView)| #[trigger] r.contains(x) <==> q.contains(x) || x == (f, j) by {
        if r.contains(x) {
            let k = choose|k: int| 0 <= k < r.len() && r[k] == x;
            if k < p {
                assert(q[k] == x);
            } else if k > p {
                assert(q[k - 1] == x);
            }
        }
        if q.contains(x) {
            let k = choose|k: int| 0 <= k < q.len() && q[k] == x;
            if k < p {
                assert(r[k] == x);
            } else {
                assert(r[k + 1] == x);
            }
        }
        if x == (f, j) {
            assert(r[p] == x);
        }
    }
}

/// Every entry flies at `start - lead`, every entry's key is among the
/// keys taken, and no two entries share a key.
pub open spec fn keys_and_times_ok(st: RebuildState, lead: int) -> bool {
    &&& forall|i: int|
        0 <= i < st.0.len() ==> (#[trigger] st.0[i]).0 == st.0[i].1.start - lead && st.1.contains(
            st.0[i].1.key,
        )
    &&& forall|i: int, k: int|
        0 <= i < k < st.0.len() ==> (#[trigger] st.0[i]).1.key != (#[trigger] st.0[k]).1.key
}

proof fn lemma_insert_keeps_ok(st: RebuildState, j: JobView, lead: int)
    requires
        keys_and_times_ok(st, lead),
        !st.1.contains(j.key),
    ensures
        keys_and_times_ok((insert_by_time(st.0, j.start - lead, j), st.1.push(j.key), st.2), lead),
{
    let q = st.0;
    let f = j.start - lead;
    lemma_insert_index(q, f, j);
    let r = insert_by_time(q, f, j);
    let p = count_not_after(q, f);
    let keys = st.1.push(j.key);
    assert forall|i: int| 0 <= i < r.len() implies (#[trigger] r[i]).0 == r[i].1.start - lead
        && keys.contains(r[i].1.key) by {
        if i < p {
            assert(st.1.contains(q[i].1.key));
        } else if i > p {
            assert(st.1.contains(q[i - 1].1.key));
        } else {
            assert(keys[keys.len() - 1] == j.key);
        }
        if i != p {
            let qi = if i < p { i } else { i - 1 };
            let m = choose|m: int| 0 <= m < st.1.len() && st.1[m] == q[qi].1.key;
            assert(keys[m] == q[qi].1.key);
        }
    }
    assert forall|i: int, k: int| 0 <= i < k < r.len() implies (#[trigger] r[i]).1.key != (
    #[trigger] r[k]).1.key by {
        if i == p {
            assert(st.1.contains(q[k - 1].1.key));
        } else if k == p {
            assert(st.1.contains(q[i].1.key));
        }
    }
}

/// Whether `carry_job` queues `j` in state `st`.
pub open spec fn carried(st: RebuildState, j: JobView) -> bool {
    !(j.source == Source::Ics && st.2.contains(job_tag(j))) && !st.1.contains(j.key)
}

proof fn lemma_carry_ok(st: RebuildState, jobs: Seq<JobView>, source: Source, lead: int)
    requires
        keys_and_times_ok(st, lead),
    ensures
        keys_and_times_ok(carry_jobs(st, jobs, source, lead), lead),
        forall|k: Seq<char>| st.1.contains(k) ==> carry_jobs(st, jobs, source, lead).1.contains(k),
        forall|t: (i64, Seq<char>)| st.2.contains(t) ==> carry_jobs(st, jobs, source, lead).2.contains(t),
        forall|i: int|
            0 <= i < jobs.len() && jobs[i].source == source ==> carry_jobs(
                st,
                jobs,
                source,
                lead,
            ).1.contains(#[trigger] jobs[i].key) || (source == Source::Ics && carry_jobs(
                st,
                jobs,
                source,
                lead,
            ).2.contains(job_tag(jobs[i]))),
    decreases jobs.len(),
{
    if jobs.len() > 0 {
        lemma_carry_ok(st, jobs.drop_last(), source, lead);
        let before = carry_jobs(st, jobs.drop_last(), source, lead);
        let j = jobs.last();
        let after = carry_jobs(st, jobs, source, lead);
        let ins = j.source == source && carried(before, j);
        if ins {
            lemma_insert_keeps_ok(before, j, lead);
            let mid = (insert_by_time(before.0, j.start - lead, j), before.1.push(j.key), before.2);
            assert(after.0 == mid.0 && after.1 == mid.1);
            assert(keys_and_times_ok(after, lead));
        }
        assert forall|k: Seq<char>| before.1.contains(k) implies after.1.contains(k) by {
            if ins {
                let m = choose|m: int| 0 <= m < before.1.len() && before.1[m] == k;
                assert(after.1[m] == k);
            }
        }
        assert forall|t: (i64, Seq<char>)| before.2.contains(t) implies after.2.contains(t) by {
            if ins && !before.2.contains(job_tag(j)) {
                let m = choose|m: int| 0 <= m < before.2.len() && before.2[m] == t;
                assert(after.2[m] == t);
            }
        }
        assert forall|i: int| 0 <= i < jobs.len() && jobs[i].source == source implies after.1.contains(
            #[trigger] jobs[i].key,
        ) || (source == Source::Ics && after.2.contains(job_tag(jobs[i]))) by {
            if i < jobs.len() - 1 {
                assert(jobs.drop_last()[i] == jobs[i]);
            } else if ins {
                assert(after.1[after.1.len() - 1] == j.key);
            }
        }
    }
}

proof fn lemma_add_ok(st: RebuildState, events: Seq<CalEvent>, source: Source, cc: bool, lead: int)
    requires
        keys_and_times_ok(st, lead),
    ensures
        keys_and_times_ok(add_events(st, events, source, cc, lead), lead),
        forall|k: Seq<char>| st.1.contains(k) ==> add_events(st, events, source, cc, lead).1.contains(k),
        forall|i: int|
            0 <= i < events.len() && events[i].id@.len() > 0 ==> add_events(
                st,
                events,
                source,
                cc,
                lead,
            ).1.contains(event_key(#[trigger] events[i])),
    decreases events.len(),
{
    if events.len() > 0 {
        lemma_add_ok(st, events.drop_last(), source, cc, lead);
        let before = add_events(st, events.drop_last(), source, cc, lead);
        let e = events.last();
        let after = add_events(st, events, source, cc, lead);
        let fresh = e.id@.len() > 0 && !before.1.contains(event_key(e));
        if fresh {
            let tag = (e.start, e.title@);
            if !(cc && before.2.contains(tag)) {
                lemma_insert_keeps_ok(before, event_job(e, source), lead);
            } else {
                assert forall|i: int| 0 <= i < after.0.len() implies (#[trigger] after.0[i]).0
                    == after.0[i].1.start - lead && after.1.contains(after.0[i].1.key) by {
                    let m = choose|m: int| 0 <= m < before.1.len() && before.1[m] == before.0[i].1.key;
                    assert(after.1[m] == before.0[i].1.key);
                }
            }
        }
        assert forall|k: Seq<char>| before.1.contains(k) implies after.1.contains(k) by {
            if fresh {
                let m = choose|m: int| 0 <= m < before.1.len() && before.1[m] == k;
                assert(after.1[m] == k);
            }
        }
        assert forall|i: int| 0 <= i < events.len() && events[i].id@.len() > 0 implies after.1.contains(
            event_key(#[trigger] events[i]),
        ) by {
            if i < events.len() - 1 {
                assert(events.drop_last()[i] == events[i]);
            } else if fresh {
                assert(after.1[after.1.len() - 1] == event_key(e));
            }
        }
    }
}

proof fn lemma_empty_ok(lead: int)
    ensures
        keys_and_times_ok(empty_state(), lead),
{
}

/// After any rebuild, every job flies at its start minus the lead time, no
/// two jobs share a key, and every key of a queued job is among the keys
/// seen.
pub proof fn rebuild_keys_unique_and_lead(
    prev: Seq<(int, JobView)>,
    ekit: Result<Vec<CalEvent>, String>,
    ics: Option<Result<Vec<CalEvent>, String>>,
    lead: int,
)
    ensures
        keys_and_times_ok(rebuild_state(prev, ekit, ics, lead), lead),
{
    lemma_empty_ok(lead);
    match ekit {
        Ok(events) => lemma_add_ok(empty_state(), events@, Source::Ekit, false, lead),
        Err(_) => lemma_carry_ok(empty_state(), queue_jobs(prev), Source::Ekit, lead),
    }
    let st = after_ekit(prev, ekit, lead);
    match ics {
        None => {},
        Some(Ok(events)) => lemma_add_ok(st, events@, Source::Ics, true, lead),
        Some(Err(_)) => lemma_carry_ok(st, queue_jobs(prev), Source::Ics, lead),
    }
}


/// Where the entries added by `carry_jobs` come from.
proof fn lemma_carry_origin(st: RebuildState, jobs: Seq<JobView>, source: Source, lead: int)
    ensures
        forall|x: (int, JobView)| #[trigger]
            carry_jobs(st, jobs, source, lead).0.contains(x) ==> st.0.contains(x) || (
            x.1.source == source && x.0 == x.1.start - lead && jobs.contains(x.1)),
    decreases jobs.len(),
{
    if jobs.len() > 0 {
        lemma_carry_origin(st, jobs.drop_last(), source, lead);
        let before = carry_jobs(st, jobs.drop_last(), source, lead);
        let j = jobs.last();
        if j.source == source && !before.1.contains(j.key) {
            lemma_insert_contains(before.0, j.start - lead, j);
        }
        assert forall|x: (int, JobView)| #[trigger]
            carry_jobs(st, jobs, source, lead).0.contains(x) implies st.0.contains(x) || (
            x.1.source == source && x.0 == x.1.start - lead && jobs.contains(x.1)) by {
            if before.0.contains(x) && !st.0.contains(x) {
                let i = choose|i: int| 0 <= i < jobs.drop_last().len() && jobs.drop_last()[i] == x.1;
                assert(jobs[i] == x.1);
            } else if !before.0.contains(x) {
                assert(jobs[jobs.len() - 1] == x.1);
            }
        }
    }
}

/// The entries `add_events` adds are exactly jobs of its events.
pub open spec fn from_events(x: (int, JobView), events: Seq<CalEvent>, source: Source, lead: int) -> bool {
    exists|i: int|
        0 <= i < events.len() && events[i].id@.len() > 0 && x == (
            events[i].start - lead,
            event_job(#[trigger] events[i], source),
        )
}

proof fn lemma_add_origin(st: RebuildState, events: Seq<CalEvent>, source: Source, cc: bool, lead: int)
    ensures
        forall|x: (int, JobView)| #[trigger]
            add_events(st, events, source, cc, lead).0.contains(x) ==> st.0.contains(x)
                || from_events(x, events, source, lead),
    decreases events.len(),
{
    if events.len() > 0 {
        lemma_add_origin(st, events.drop_last(), source, cc, lead);
        let before = add_events(st, events.drop_last(), source, cc, lead);
        let e = events.last();
        lemma_insert_contains(before.0, e.start - lead, event_job(e, source));
        assert forall|x: (int, JobView)| #[trigger]
            add_events(st, events, source, cc, lead).0.contains(x) implies st.0.contains(x)
                || from_events(x, events, source, lead) by {
            if before.0.contains(x) && !st.0.contains(x) {
                let i = choose|i: int|
                    0 <= i < events.drop_last().len() && events.drop_last()[i].id@.len() > 0 && x == (
                        events.drop_last()[i].start - lead,
                        event_job(#[trigger] events.drop_last()[i], source),
                    );
                assert(events[i] == events.drop_last()[i]);
            } else if !before.0.contains(x) {
                assert(events[events.len() - 1] == e);
            }
        }
    }
}

/// Some entry of `q` has key `key`.
pub open spec fn has_key(q: Seq<(int, JobView)>, key: Seq<char>) -> bool {
    exists|i: int| 0 <= i < q.len() && (#[trigger] q[i]).1.key == key
}

/// Every key taken belongs to a queued entry.
pub open spec fn keys_backed(st: RebuildState) -> bool {
    forall|m: int| 0 <= m < st.1.len() ==> has_key(st.0, #[trigger] st.1[m])
}

proof fn lemma_has_key_within(q: Seq<(int, JobView)>, q2: Seq<(int, JobView)>, key: Seq<char>)
    requires
        has_key(q, key),
        within(q, q2),
    ensures
        has_key(q2, key),
{
    let i = choose|i: int| 0 <= i < q.len() && (#[trigger] q[i]).1.key == key;
    assert(q.contains(q[i]));
    let k = choose|k: int| 0 <= k < q2.len() && q2[k] == q[i];
    assert(q2[k].1.key == key);
}

proof fn lemma_insert_backed(st: RebuildState, j: JobView, lead: int)
    requires
        keys_backed(st),
    ensures
        keys_backed((insert_by_time(st.0, j.start - lead, j), st.1.push(j.key), st.2)),
{
    let f = j.start - lead;
    lemma_insert_index(st.0, f, j);
    lemma_insert_contains(st.0, f, j);
    let r = insert_by_time(st.0, f, j);
    let keys = st.1.push(j.key);
    let p = count_not_after(st.0, f);
    assert(within(st.0, r));
    assert forall|m: int| 0 <= m < keys.len() implies has_key(r, #[trigger] keys[m]) by {
        if m == keys.len() - 1 {
            assert(r[p].1.key == keys[m]);
        } else {
            assert(has_key(st.0, st.1[m]));
            lemma_has_key_within(st.0, r, st.1[m]);
        }
    }
}

proof fn lemma_carry_backed(st: RebuildState, jobs: Seq<JobView>, source: Source, lead: int)
    requires
        keys_backed(st),
    ensures
        keys_backed(carry_jobs(st, jobs, source, lead)),
    decreases jobs.len(),
{
    if jobs.len() > 0 {
        lemma_carry_backed(st, jobs.drop_last(), source, lead);
        let before = carry_jobs(st, jobs.drop_last(), source, lead);
        let j = jobs.last();
        if j.source == source && carried(before, j) {
            lemma_insert_backed(before, j, lead);
            let after = carry_jobs(st, jobs, source, lead);
            let mid = (insert_by_time(before.0, j.start - lead, j), before.1.push(j.key), before.2);
            assert(after.0 == mid.0 && after.1 == mid.1);
            assert forall|m: int| 0 <= m < after.1.len() implies has_key(after.0, #[trigger] after.1[m]) by {
                assert(has_key(mid.0, mid.1[m]));
            }
        }
    }
}

proof fn lemma_add_backed(st: RebuildState, events: Seq<CalEvent>, source: Source, lead: int)
    requires
        keys_backed(st),
    ensures
        keys_backed(add_events(st, events, source, false, lead)),
    decreases events.len(),
{
    if events.len() > 0 {
        lemma_add_backed(st, events.drop_last(), source, lead);
        let before = add_events(st, events.drop_last(), source, false, lead);
        let e = events.last();
        if e.id@.len() > 0 && !before.1.contains(event_key(e)) {
            let j = event_job(e, source);
            lemma_insert_backed(before, j, lead);
            let after = add_events(st, events, source, false, lead);
            assert(after.0 == insert_by_time(before.0, j.start - lead, j));
            assert(after.1 == before.1.push(j.key));
            assert forall|m: int| 0 <= m < after.1.len() implies has_key(after.0, #[trigger] after.1[m]) by {
                let k2 = (insert_by_time(before.0, j.start - lead, j), before.1.push(j.key), before.2);
                assert(has_key(k2.0, k2.1[m]));
            }
        }
    }
}

/// Every entry of `q` came from `source`.
pub open spec fn only_from(q: Seq<(int, JobView)>, source: Source) -> bool {
    forall|x: (int, JobView)| q.contains(x) ==> x.1.source == source
}

proof fn lemma_after_ekit_facts(prev: Seq<(int, JobView)>, ekit: Result<Vec<CalEvent>, String>, lead: int)
    ensures
        only_from(after_ekit(prev, ekit, lead).0, Source::Ekit),
        keys_backed(after_ekit(prev, ekit, lead)),
{
    match ekit {
        Ok(events) => {
            lemma_add_origin(empty_state(), events@, Source::Ekit, false, lead);
            lemma_add_backed(empty_state(), events@, Source::Ekit, lead);
            let q = after_ekit(prev, ekit, lead).0;
            assert forall|x: (int, JobView)| q.contains(x) implies x.1.source == Source::Ekit by {
                let i = choose|i: int|
                    0 <= i < events@.len() && events@[i].id@.len() > 0 && x == (
                        events@[i].start - lead,
                        event_job(#[trigger] events@[i], Source::Ekit),
                    );
            }
        },
        Err(_) => {
            lemma_carry_origin(empty_state(), queue_jobs(prev), Source::Ekit, lead);
            lemma_carry_backed(empty_state(), queue_jobs(prev), Source::Ekit, lead);
        },
    }
}

/// The feed phase only grows the queue and only with feed jobs.
proof fn lemma_feed_phase(prev: Seq<(int, JobView)>, ekit: Result<Vec<CalEvent>, String>, ics: Option<Result<Vec<CalEvent>, String>>, lead: int)
    ensures
        within(after_ekit(prev, ekit, lead).0, rebuilt_queue(prev, ekit, ics, lead)),
        forall|x: (int, JobView)| #[trigger]
            rebuilt_queue(prev, ekit, ics, lead).contains(x) ==> after_ekit(prev, ekit, lead).0.contains(x)
                || x.1.source == Source::Ics,
{
    let st = after_ekit(prev, ekit, lead);
    let pj = queue_jobs(prev);
    match ics {
        None => {},
        Some(Ok(events)) => {
            lemma_add_grows(st, events@, Source::Ics, true, lead, events@.len() as int);
            assert(events@.take(events@.len() as int) =~= events@);
            lemma_add_origin(st, events@, Source::Ics, true, lead);
            assert forall|x: (int, JobView)| #[trigger]
                rebuilt_queue(prev, ekit, ics, lead).contains(x) implies st.0.contains(x)
                    || x.1.source == Source::Ics by {
                if !st.0.contains(x) {
                    let i = choose|i: int|
                        0 <= i < events@.len() && events@[i].id@.len() > 0 && x == (
                            events@[i].start - lead,
                            event_job(#[trigger] events@[i], Source::Ics),
                        );
                }
            }
        },
        Some(Err(_)) => {
            lemma_carry_grows(st, pj, Source::Ics, lead, pj.len() as int);
            assert(pj.take(pj.len() as int) =~= pj);
            lemma_carry_origin(st, pj, Source::Ics, lead);
        },
    }
}

/// Without a feed configured, the rebuilt queue holds no feed jobs.
pub proof fn rebuild_without_feed_has_no_feed_jobs(
    prev: Seq<(int, JobView)>,
    ekit: Result<Vec<CalEvent>, String>,
    lead: int,
)
    ensures
        only_from(rebuilt_queue(prev, ekit, None, lead), Source::Ekit),
{
    lemma_after_ekit_facts(prev, ekit, lead);
}

/// A successful EventKit read replaces the EventKit jobs, even when it is
/// empty: every EventKit job in the new queue is one of the events read,
/// and every event read that has an id is queued under its key.
pub proof fn rebuild_successful_eventkit_read_replaces(
    prev: Seq<(int, JobView)>,
    events: Vec<CalEvent>,
    ics: Option<Result<Vec<CalEvent>, String>>,
    lead: int,
)
    ensures
        ({
            let q = rebuilt_queue(prev, Ok(events), ics, lead);
            &&& forall|x: (int, JobView)|
                q.contains(x) && x.1.source == Source::Ekit ==> from_events(x, events@, Source::Ekit, lead)
            &&& forall|i: int|
                0 <= i < events@.len() && (#[trigger] events@[i]).id@.len() > 0 ==> exists|k: int|
                    0 <= k < q.len() && q[k].1.key == event_key(events@[i]) && q[k].1.source
                        == Source::Ekit
        }),
{
    let ekit: Result<Vec<CalEvent>, String> = Ok(events);
    let st = after_ekit(prev, ekit, lead);
    let q = rebuilt_queue(prev, ekit, ics, lead);
    lemma_after_ekit_facts(prev, ekit, lead);
    lemma_feed_phase(prev, ekit, ics, lead);
    lemma_add_origin(empty_state(), events@, Source::Ekit, false, lead);
    lemma_add_ok(empty_state(), events@, Source::Ekit, false, lead);
    assert forall|x: (int, JobView)| q.contains(x) && x.1.source == Source::Ekit implies from_events(
        x,
        events@,
        Source::Ekit,
        lead,
    ) by {
        assert(st.0.contains(x));
    }
    assert forall|i: int| 0 <= i < events@.len() && (#[trigger] events@[i]).id@.len() > 0 implies exists|k: int|
        0 <= k < q.len() && q[k].1.key == event_key(events@[i]) && q[k].1.source == Source::Ekit by {
        let key = event_key(events@[i]);
        let m = choose|m: int| 0 <= m < st.1.len() && st.1[m] == key;
        assert(has_key(st.0, st.1[m]));
        let j = choose|j: int| 0 <= j < st.0.len() && (#[trigger] st.0[j]).1.key == key;
        assert(st.0.contains(st.0[j]));
        assert(q.contains(st.0[j]));
        let k = choose|k: int| 0 <= k < q.len() && q[k] == st.0[j];
    }
}

/// A failed EventKit read never deletes: every EventKit job of the previous
/// queue is still queued under its key, and no EventKit job is invented.
pub proof fn rebuild_failed_eventkit_read_keeps_jobs(
    prev: Seq<(int, JobView)>,
    error: String,
    ics: Option<Result<Vec<CalEvent>, String>>,
    lead: int,
)
    ensures
        ({
            let q = rebuilt_queue(prev, Err(error), ics, lead);
            &&& forall|i: int|
                0 <= i < prev.len() && (#[trigger] prev[i]).1.source == Source::Ekit ==> exists|k: int|
                    0 <= k < q.len() && q[k].1.key == prev[i].1.key && q[k].1.source == Source::Ekit
            &&& forall|x: (int, JobView)|
                q.contains(x) && x.1.source == Source::Ekit ==> queue_jobs(prev).contains(x.1)
                    && x.0 == x.1.start - lead
        }),
{
    let ekit: Result<Vec<CalEvent>, String> = Err(error);
    let st = after_ekit(prev, ekit, lead);
    let q = rebuilt_queue(prev, ekit, ics, lead);
    let pj = queue_jobs(prev);
    lemma_after_ekit_facts(prev, ekit, lead);
    lemma_feed_phase(prev, ekit, ics, lead);
    lemma_carry_origin(empty_state(), pj, Source::Ekit, lead);
    lemma_empty_ok(lead);
    lemma_carry_ok(empty_state(), pj, Source::Ekit, lead);
    assert forall|i: int| 0 <= i < prev.len() && (#[trigger] prev[i]).1.source == Source::Ekit implies exists|k: int|
        0 <= k < q.len() && q[k].1.key == prev[i].1.key && q[k].1.source == Source::Ekit by {
        assert(pj[i] == prev[i].1);
        let key = prev[i].1.key;
        assert(st.1.contains(pj[i].key));
        let m = choose|m: int| 0 <= m < st.1.len() && st.1[m] == key;
        assert(has_key(st.0, st.1[m]));
        let j = choose|j: int| 0 <= j < st.0.len() && (#[trigger] st.0[j]).1.key == key;
        assert(st.0.contains(st.0[j]));
        assert(q.contains(st.0[j]));
        let k = choose|k: int| 0 <= k < q.len() && q[k] == st.0[j];
    }
    assert forall|x: (int, JobView)| q.contains(x) && x.1.source == Source::Ekit implies pj.contains(x.1)
        && x.0 == x.1.start - lead by {
        assert(st.0.contains(x));
    }
}


proof fn lemma_phase_one_ok(prev: Seq<(int, JobView)>, ekit: Result<Vec<CalEvent>, String>, lead: int)
    ensures
        keys_and_times_ok(after_ekit(prev, ekit, lead), lead),
{
    lemma_empty_ok(lead);
    match ekit {
        Ok(events) => lemma_add_ok(empty_state(), events@, Source::Ekit, false, lead),
        Err(_) => lemma_carry_ok(empty_state(), queue_jobs(prev), Source::Ekit, lead),
    }
}

/// Some entry of `q` is the meeting `t`: same start, same title.
pub open spec fn has_tag(q: Seq<(int, JobView)>, t: (i64, Seq<char>)) -> bool {
    exists|i: int| 0 <= i < q.len() && tag_of(#[trigger] q[i]) == t
}

/// Every recorded `(start, title)` belongs to a queued entry.
pub open spec fn tags_backed(st: RebuildState) -> bool {
    forall|m: int| 0 <= m < st.2.len() ==> has_tag(st.0, #[trigger] st.2[m])
}

proof fn lemma_insert_has_tag(q: Seq<(int, JobView)>, j: JobView, lead: int)
    ensures
        forall|t: (i64, Seq<char>)|
            has_tag(q, t) ==> #[trigger] has_tag(insert_by_time(q, j.start - lead, j), t),
        has_tag(insert_by_time(q, j.start - lead, j), job_tag(j)),
{
    let f = j.start - lead;
    lemma_insert_index(q, f, j);
    let r = insert_by_time(q, f, j);
    let p = count_not_after(q, f);
    assert(tag_of(r[p]) == job_tag(j));
    assert forall|t: (i64, Seq<char>)| has_tag(q, t) implies #[trigger] has_tag(r, t) by {
        let i = choose|i: int| 0 <= i < q.len() && tag_of(#[trigger] q[i]) == t;
        if i < p {
            assert(tag_of(r[i]) == t);
        } else {
            assert(tag_of(r[i + 1]) == t);
        }
    }
}

/// One step of a rebuild keeps every recorded `(start, title)` queued.
proof fn lemma_step_tags_backed(before: RebuildState, after: RebuildState, j: JobView, lead: int)
    requires
        tags_backed(before),
        (after.0 == before.0 && after.2 == before.2) || (after.0 == insert_by_time(before.0, j.start - lead, j) && (after.2
            == before.2 || after.2 == before.2.push(job_tag(j)))),
    ensures
        tags_backed(after),
{
    lemma_insert_has_tag(before.0, j, lead);
    assert forall|m: int| 0 <= m < after.2.len() implies has_tag(after.0, #[trigger] after.2[m]) by {
        if m < before.2.len() {
            assert(after.2[m] == before.2[m]);
            assert(has_tag(before.0, before.2[m]));
        }
    }
}

proof fn lemma_carry_tags_backed(st: RebuildState, jobs: Seq<JobView>, source: Source, lead: int)
    requires
        tags_backed(st),
    ensures
        tags_backed(carry_jobs(st, jobs, source, lead)),
    decreases jobs.len(),
{
    if jobs.len() > 0 {
        lemma_carry_tags_backed(st, jobs.drop_last(), source, lead);
        let before = carry_jobs(st, jobs.drop_last(), source, lead);
        lemma_step_tags_backed(before, carry_jobs(st, jobs, source, lead), jobs.last(), lead);
    }
}

proof fn lemma_add_tags_backed(st: RebuildState, events: Seq<CalEvent>, source: Source, cc: bool, lead: int)
    requires
        tags_backed(st),
    ensures
        tags_backed(add_events(st, events, source, cc, lead)),
    decreases events.len(),
{
    if events.len() > 0 {
        lemma_add_tags_backed(st, events.drop_last(), source, cc, lead);
        let before = add_events(st, events.drop_last(), source, cc, lead);
        let e = events.last();
        let j = event_job(e, source);
        assert(job_tag(j) == (e.start, e.title@));
        lemma_step_tags_backed(before, add_events(st, events, source, cc, lead), j, lead);
    }
}

proof fn lemma_after_ekit_tags_backed(prev: Seq<(int, JobView)>, ekit: Result<Vec<CalEvent>, String>, lead: int)
    ensures
        tags_backed(after_ekit(prev, ekit, lead)),
{
    match ekit {
        Ok(events) => lemma_add_tags_backed(empty_state(), events@, Source::Ekit, false, lead),
        Err(_) => lemma_carry_tags_backed(empty_state(), queue_jobs(prev), Source::Ekit, lead),
    }
}

/// A failed feed read drops no meeting: every feed job of the previous
/// queue is still queued under its key, or has yielded to a queued job of
/// the same start and title; and every feed job in the new queue is one of
/// the previous ones.
pub proof fn rebuild_failed_feed_read_keeps_jobs(
    prev: Seq<(int, JobView)>,
    ekit: Result<Vec<CalEvent>, String>,
    error: String,
    lead: int,
)
    ensures
        ({
            let q = rebuilt_queue(prev, ekit, Some(Err(error)), lead);
            &&& forall|i: int|
                0 <= i < prev.len() && (#[trigger] prev[i]).1.source == Source::Ics ==> has_key(
                    q,
                    prev[i].1.key,
                ) || has_tag(q, job_tag(prev[i].1))
            &&& forall|x: (int, JobView)|
                q.contains(x) && x.1.source == Source::Ics ==> queue_jobs(prev).contains(x.1)
                    && x.0 == x.1.start - lead
        }),
{
    let ics: Option<Result<Vec<CalEvent>, String>> = Some(Err(error));
    let st = after_ekit(prev, ekit, lead);
    let fin = rebuild_state(prev, ekit, ics, lead);
    let pj = queue_jobs(prev);
    lemma_after_ekit_facts(prev, ekit, lead);
    lemma_after_ekit_tags_backed(prev, ekit, lead);
    lemma_phase_one_ok(prev, ekit, lead);
    lemma_carry_ok(st, pj, Source::Ics, lead);
    lemma_carry_backed(st, pj, Source::Ics, lead);
    lemma_carry_tags_backed(st, pj, Source::Ics, lead);
    lemma_carry_origin(st, pj, Source::Ics, lead);
    assert forall|i: int| 0 <= i < prev.len() && (#[trigger] prev[i]).1.source == Source::Ics implies has_key(
        fin.0,
        prev[i].1.key,
    ) || has_tag(fin.0, job_tag(prev[i].1)) by {
        assert(pj[i] == prev[i].1);
        if fin.1.contains(pj[i].key) {
            let m = choose|m: int| 0 <= m < fin.1.len() && fin.1[m] == pj[i].key;
            assert(has_key(fin.0, fin.1[m]));
        } else {
            let m = choose|m: int| 0 <= m < fin.2.len() && fin.2[m] == job_tag(pj[i]);
            assert(has_tag(fin.0, fin.2[m]));
        }
    }
}

/// A successful feed read replaces the feed jobs: every feed job in the new
/// queue is one of the feed events just read.
pub proof fn rebuild_successful_feed_read_replaces(
    prev: Seq<(int, JobView)>,
    ekit: Result<Vec<CalEvent>, String>,
    events: Vec<CalEvent>,
    lead: int,
)
    ensures
        forall|x: (int, JobView)|
            rebuilt_queue(prev, ekit, Some(Ok(events)), lead).contains(x) && x.1.source == Source::Ics
                ==> from_events(x, events@, Source::Ics, lead),
{
    let st = after_ekit(prev, ekit, lead);
    lemma_after_ekit_facts(prev, ekit, lead);
    lemma_add_origin(st, events@, Source::Ics, true, lead);
}

/// The `(start, title)` of a queued entry.
pub open spec fn tag_of(x: (int, JobView)) -> (i64, Seq<char>) {
    (x.1.start, x.1.title)
}

/// Every queued meeting's `(start, title)` is recorded, and a feed job
/// shares it with no other job.
pub open spec fn tags_ok(st: RebuildState) -> bool {
    &&& forall|i: int| 0 <= i < st.0.len() ==> st.2.contains(tag_of(#[trigger] st.0[i]))
    &&& forall|i: int, k: int|
        0 <= i < st.0.len() && 0 <= k < st.0.len() && i != k && (#[trigger] st.0[i]).1.source
            == Source::Ics ==> tag_of(st.0[i]) != tag_of(#[trigger] st.0[k])
}

proof fn lemma_add_tags(st: RebuildState, events: Seq<CalEvent>, source: Source, cc: bool, lead: int)
    requires
        tags_ok(st),
        cc || (source == Source::Ekit && only_from(st.0, Source::Ekit)),
    ensures
        tags_ok(add_events(st, events, source, cc, lead)),
        !cc ==> only_from(add_events(st, events, source, cc, lead).0, Source::Ekit),
    decreases events.len(),
{
    if events.len() > 0 {
        lemma_add_tags(st, events.drop_last(), source, cc, lead);
        let before = add_events(st, events.drop_last(), source, cc, lead);
        let e = events.last();
        let after = add_events(st, events, source, cc, lead);
        let tag = (e.start, e.title@);
        if e.id@.len() > 0 && !before.1.contains(event_key(e)) && !(cc && before.2.contains(tag)) {
            let j = event_job(e, source);
            let f = e.start - lead;
            lemma_insert_index(before.0, f, j);
            lemma_insert_contains(before.0, f, j);
            let r = after.0;
            let p = count_not_after(before.0, f);
            assert(tag_of(r[p]) == tag);
            assert(after.2.contains(tag)) by {
                if !before.2.contains(tag) {
                    assert(after.2[after.2.len() - 1] == tag);
                }
            }
            assert forall|t: (i64, Seq<char>)| before.2.contains(t) implies after.2.contains(t) by {
                if !before.2.contains(tag) {
                    let m = choose|m: int| 0 <= m < before.2.len() && before.2[m] == t;
                    assert(after.2[m] == t);
                }
            }
            assert forall|i: int| 0 <= i < r.len() implies after.2.contains(tag_of(#[trigger] r[i])) by {
                if i < p {
                    assert(before.2.contains(tag_of(before.0[i])));
                } else if i > p {
                    assert(before.2.contains(tag_of(before.0[i - 1])));
                }
            }
            assert forall|i: int, k: int|
                0 <= i < r.len() && 0 <= k < r.len() && i != k && (#[trigger] r[i]).1.source
                    == Source::Ics implies tag_of(r[i]) != tag_of(#[trigger] r[k]) by {
                if cc {
                    if i == p {
                        let kk = if k < p { k } else { k - 1 };
                        assert(before.2.contains(tag_of(before.0[kk])));
                    } else if k == p {
                        let ii = if i < p { i } else { i - 1 };
                        assert(before.2.contains(tag_of(before.0[ii])));
                    } else {
                        let ii = if i < p { i } else { i - 1 };
                        let kk = if k < p { k } else { k - 1 };
                        assert(r[i] == before.0[ii]);
                        assert(r[k] == before.0[kk]);
                    }
                } else {
                    if i == p {
                        assert(r[i].1.source == Source::Ekit);
                    } else {
                        let ii = if i < p { i } else { i - 1 };
                        assert(before.0.contains(before.0[ii]));
                    }
                }
            }
        } else if e.id@.len() > 0 && !before.1.contains(event_key(e)) {
            assert(after.0 == before.0);
            assert(after.2 == before.2);
        }
    }
}

proof fn lemma_carry_tags(st: RebuildState, jobs: Seq<JobView>, source: Source, lead: int)
    requires
        tags_ok(st),
        source == Source::Ics || only_from(st.0, Source::Ekit),
    ensures
        tags_ok(carry_jobs(st, jobs, source, lead)),
        source != Source::Ics ==> only_from(carry_jobs(st, jobs, source, lead).0, Source::Ekit),
    decreases jobs.len(),
{
    if jobs.len() > 0 {
        lemma_carry_tags(st, jobs.drop_last(), source, lead);
        let before = carry_jobs(st, jobs.drop_last(), source, lead);
        let j = jobs.last();
        let after = carry_jobs(st, jobs, source, lead);
        let tag = job_tag(j);
        if j.source == source && carried(before, j) {
            let f = j.start - lead;
            lemma_insert_index(before.0, f, j);
            lemma_insert_contains(before.0, f, j);
            let r = after.0;
            let p = count_not_after(before.0, f);
            assert(tag_of(r[p]) == tag);
            assert(after.2.contains(tag)) by {
                if !before.2.contains(tag) {
                    assert(after.2[after.2.len() - 1] == tag);
                }
            }
            assert forall|t: (i64, Seq<char>)| before.2.contains(t) implies after.2.contains(t) by {
                if !before.2.contains(tag) {
                    let m = choose|m: int| 0 <= m < before.2.len() && before.2[m] == t;
                    assert(after.2[m] == t);
                }
            }
            assert forall|i: int| 0 <= i < r.len() implies after.2.contains(tag_of(#[trigger] r[i])) by {
                if i < p {
                    assert(before.2.contains(tag_of(before.0[i])));
                } else if i > p {
                    assert(before.2.contains(tag_of(before.0[i - 1])));
                }
            }
            assert forall|i: int, k: int|
                0 <= i < r.len() && 0 <= k < r.len() && i != k && (#[trigger] r[i]).1.source
                    == Source::Ics implies tag_of(r[i]) != tag_of(#[trigger] r[k]) by {
                if source == Source::Ics {
                    if i == p {
                        let kk = if k < p { k } else { k - 1 };
                        assert(before.2.contains(tag_of(before.0[kk])));
                    } else if k == p {
                        let ii = if i < p { i } else { i - 1 };
                        assert(before.2.contains(tag_of(before.0[ii])));
                    } else {
                        let ii = if i < p { i } else { i - 1 };
                        let kk = if k < p { k } else { k - 1 };
                        assert(r[i] == before.0[ii]);
                        assert(r[k] == before.0[kk]);
                    }
                } else {
                    if i == p {
                        assert(r[i].1.source == Source::Ekit);
                    } else {
                        let ii = if i < p { i } else { i - 1 };
                        assert(before.0.contains(before.0[ii]));
                    }
                }
            }
            if source != Source::Ics {
                assert forall|x: (int, JobView)| r.contains(x) implies x.1.source == Source::Ekit by {
                    if before.0.contains(x) {
                    } else {
                        assert(x == (f, j));
                    }
                }
            }
        } else {
            assert(after == before);
        }
    }
}

/// Whatever either read returns, a feed job never shares its start and
/// title with any other queued job: the feed, read or carried over, yields
/// to EventKit, and feed duplicates fly once.
pub proof fn rebuild_feed_yields_to_eventkit(
    prev: Seq<(int, JobView)>,
    ekit: Result<Vec<CalEvent>, String>,
    ics: Option<Result<Vec<CalEvent>, String>>,
    lead: int,
)
    ensures
        ({
            let q = rebuilt_queue(prev, ekit, ics, lead);
            forall|i: int, k: int|
                0 <= i < q.len() && 0 <= k < q.len() && i != k && (#[trigger] q[i]).1.source
                    == Source::Ics ==> tag_of(q[i]) != tag_of(#[trigger] q[k])
        }),
{
    assert(tags_ok(empty_state()));
    match ekit {
        Ok(events) => lemma_add_tags(empty_state(), events@, Source::Ekit, false, lead),
        Err(_) => lemma_carry_tags(empty_state(), queue_jobs(prev), Source::Ekit, lead),
    }
    let st = after_ekit(prev, ekit, lead);
    match ics {
        None => {},
        Some(Ok(events)) => lemma_add_tags(st, events@, Source::Ics, true, lead),
        Some(Err(_)) => lemma_carry_tags(st, queue_jobs(prev), Source::Ics, lead),
    }
}

/// Every job of a rebuilt queue names its calendar event, provided the
/// previous queue's jobs all do: events without an id are never queued.
pub proof fn rebuild_jobs_name_their_event(
    prev: Seq<(int, JobView)>,
    ekit: Result<Vec<CalEvent>, String>,
    ics: Option<Result<Vec<CalEvent>, String>>,
    lead: int,
)
    requires
        forall|i: int| 0 <= i < prev.len() ==> (#[trigger] prev[i]).1.event_id.len() > 0,
    ensures
        ({
            let q = rebuilt_queue(prev, ekit, ics, lead);
            forall|k: int| 0 <= k < q.len() ==> (#[trigger] q[k]).1.event_id.len() > 0
        }),
{
    let pj = queue_jobs(prev);
    let st = after_ekit(prev, ekit, lead);
    let q = rebuilt_queue(prev, ekit, ics, lead);
    assert forall|j: JobView| pj.contains(j) implies j.event_id.len() > 0 by {
        let i = choose|i: int| 0 <= i < pj.len() && pj[i] == j;
        assert(prev[i].1 == j);
    }
    match ekit {
        Ok(events) => lemma_add_origin(empty_state(), events@, Source::Ekit, false, lead),
        Err(_) => lemma_carry_origin(empty_state(), pj, Source::Ekit, lead),
    }
    assert forall|x: (int, JobView)| st.0.contains(x) implies x.1.event_id.len() > 0 by {
        match ekit {
            Ok(events) => {
                let i = choose|i: int|
                    0 <= i < events@.len() && events@[i].id@.len() > 0 && x == (
                        events@[i].start - lead,
                        event_job(#[trigger] events@[i], Source::Ekit),
                    );
            },
            Err(_) => {},
        }
    }
    match ics {
        None => {},
        Some(Ok(events)) => lemma_add_origin(st, events@, Source::Ics, true, lead),
        Some(Err(_)) => lemma_carry_origin(st, pj, Source::Ics, lead),
    }
    assert forall|k: int| 0 <= k < q.len() implies (#[trigger] q[k]).1.event_id.len() > 0 by {
        let x = q[k];
        assert(q.contains(x));
        if !st.0.contains(x) {
            match ics {
                Some(Ok(events)) => {
                    let i = choose|i: int|
                        0 <= i < events@.len() && events@[i].id@.len() > 0 && x == (
                            events@[i].start - lead,
                            event_job(#[trigger] events@[i], Source::Ics),
                        );
                },
                _ => {},
            }
        }
    }
}

} // verus!

verus! {

/// Every key and every `(start, title)` taken while adding `evs` was taken
/// before, or belongs to one of `evs` that has an id.
proof fn lemma_add_sources(st: RebuildState, evs: Seq<CalEvent>, source: Source, cc: bool, lead: int)
    ensures
        forall|k: Seq<char>|
            #[trigger] add_events(st, evs, source, cc, lead).1.contains(k) ==> st.1.contains(k) || exists|j: int|
                0 <= j < evs.len() && evs[j].id@.len() > 0 && k == event_key(#[trigger] evs[j]),
        forall|t: (i64, Seq<char>)|
            #[trigger] add_events(st, evs, source, cc, lead).2.contains(t) ==> st.2.contains(t) || exists|j: int|
                0 <= j < evs.len() && evs[j].id@.len() > 0 && t == (evs[j].start, (#[trigger] evs[j]).title@),
    decreases evs.len(),
{
    if evs.len() > 0 {
        lemma_add_sources(st, evs.drop_last(), source, cc, lead);
        let before = add_events(st, evs.drop_last(), source, cc, lead);
        let after = add_events(st, evs, source, cc, lead);
        let e = evs.last();
        let n = evs.len() - 1;
        assert(evs[n] == e);
        assert forall|k: Seq<char>| #[trigger] after.1.contains(k) implies st.1.contains(k) || exists|j: int|
            0 <= j < evs.len() && evs[j].id@.len() > 0 && k == event_key(#[trigger] evs[j]) by {
            if before.1.contains(k) {
                if !st.1.contains(k) {
                    let j = choose|j: int|
                        0 <= j < evs.drop_last().len() && evs.drop_last()[j].id@.len() > 0 && k == event_key(
                            #[trigger] evs.drop_last()[j],
                        );
                    assert(evs[j] == evs.drop_last()[j]);
                }
            } else {
                let m = choose|m: int| 0 <= m < after.1.len() && after.1[m] == k;
                if m < before.1.len() {
                    assert(before.1[m] == after.1[m]);
                }
                assert(k == event_key(evs[n]));
            }
        }
        assert forall|t: (i64, Seq<char>)| #[trigger] after.2.contains(t) implies st.2.contains(t) || exists|j: int|
            0 <= j < evs.len() && evs[j].id@.len() > 0 && t == (evs[j].start, (#[trigger] evs[j]).title@) by {
            if before.2.contains(t) {
                if !st.2.contains(t) {
                    let j = choose|j: int|
                        0 <= j < evs.drop_last().len() && evs.drop_last()[j].id@.len() > 0 && t == (
                            evs.drop_last()[j].start,
                            (#[trigger] evs.drop_last()[j]).title@,
                        );
                    assert(evs[j] == evs.drop_last()[j]);
                }
            } else {
                let m = choose|m: int| 0 <= m < after.2.len() && after.2[m] == t;
                if m < before.2.len() {
                    assert(before.2[m] == after.2[m]);
                }
                assert(t == (evs[n].start, evs[n].title@));
            }
        }
    }
}

/// A successful feed read queues every feed meeting that collides with
/// nothing: an event with an id whose key and whose start and title differ
/// from those of every EventKit job in the new queue and of every earlier
/// feed event is queued under its key, at its start minus the lead time.
/// A meeting at the same time under another title is a different meeting.
pub proof fn rebuild_keeps_distinct_feed_meetings(
    prev: Seq<(int, JobView)>,
    ekit: Result<Vec<CalEvent>, String>,
    events: Vec<CalEvent>,
    lead: int,
    i: int,
)
    requires
        0 <= i < events@.len(),
        events@[i].id@.len() > 0,
        forall|j: int|
            0 <= j < i && (#[trigger] events@[j]).id@.len() > 0 ==> event_key(events@[j]) != event_key(events@[i])
                && (events@[j].start, events@[j].title@) != (events@[i].start, events@[i].title@),
        forall|x: (int, JobView)|
            #[trigger] rebuilt_queue(prev, ekit, Some(Ok(events)), lead).contains(x) && x.1.source == Source::Ekit
                ==> x.1.key != event_key(events@[i]) && tag_of(x) != (events@[i].start, events@[i].title@),
    ensures
        rebuilt_queue(prev, ekit, Some(Ok(events)), lead).contains(
            (events@[i].start - lead, event_job(events@[i], Source::Ics)),
        ),
{
    let ics: Option<Result<Vec<CalEvent>, String>> = Some(Ok(events));
    let st = after_ekit(prev, ekit, lead);
    let q = rebuilt_queue(prev, ekit, ics, lead);
    let evs = events@;
    let e = evs[i];
    let key = event_key(e);
    let tag = (e.start, e.title@);
    lemma_after_ekit_facts(prev, ekit, lead);
    lemma_after_ekit_tags_backed(prev, ekit, lead);
    lemma_feed_phase(prev, ekit, ics, lead);
    let pre = evs.take(i);
    let before = add_events(st, pre, Source::Ics, true, lead);
    lemma_add_sources(st, pre, Source::Ics, true, lead);
    assert(!before.1.contains(key)) by {
        if before.1.contains(key) {
            if st.1.contains(key) {
                let m = choose|m: int| 0 <= m < st.1.len() && st.1[m] == key;
                assert(has_key(st.0, st.1[m]));
                let k = choose|k: int| 0 <= k < st.0.len() && (#[trigger] st.0[k]).1.key == key;
                assert(st.0.contains(st.0[k]));
                assert(q.contains(st.0[k]));
            } else {
                let j = choose|j: int| 0 <= j < pre.len() && pre[j].id@.len() > 0 && key == event_key(#[trigger] pre[j]);
                assert(pre[j] == evs[j]);
            }
        }
    }
    assert(!before.2.contains(tag)) by {
        if before.2.contains(tag) {
            if st.2.contains(tag) {
                let m = choose|m: int| 0 <= m < st.2.len() && st.2[m] == tag;
                assert(has_tag(st.0, st.2[m]));
                let k = choose|k: int| 0 <= k < st.0.len() && tag_of(#[trigger] st.0[k]) == tag;
                assert(st.0.contains(st.0[k]));
                assert(q.contains(st.0[k]));
            } else {
                let j = choose|j: int| 0 <= j < pre.len() && pre[j].id@.len() > 0 && tag == (pre[j].start, (#[trigger] pre[j]).title@);
                assert(pre[j] == evs[j]);
            }
        }
    }
    let upto = evs.take(i + 1);
    assert(upto.drop_last() =~= pre);
    assert(upto.last() == e);
    let job = event_job(e, Source::Ics);
    lemma_insert_contains(before.0, e.start - lead, job);
    assert(add_events(st, upto, Source::Ics, true, lead).0 == insert_by_time(before.0, e.start - lead, job));
    lemma_add_grows(st, evs, Source::Ics, true, lead, i + 1);
    assert(add_events(st, upto, Source::Ics, true, lead).0.contains((e.start - lead, job)));
}

} // verus!
