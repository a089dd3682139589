//! The flyby queue: which meetings fly when, rebuilt after every calendar
//! poll, and the percent-encoding of the query values a flyby opens with.

use vstd::prelude::*;
use crate::calendar::CalEvent;
use crate::text::{concat_chars, decimal, decimal_chars, string_of};
use vstd::utf8::encode_utf8;

verus! {

/// Where a queued flyby came from.
#[derive(Clone, Copy, PartialEq, Eq, Debug, Structural)]
pub enum Source {
    Ekit,
    Ics,
}

/// One planned flyby.
#[derive(Clone, Debug)]
pub struct FlybyJob {
    /// "{stable_id}@{occurrence}"
    pub key: String,
    pub event_id: String,
    pub title: String,
    pub start: i64,
    pub source: Source,
}

/// A flyby job as plain values.
pub struct JobView {
    pub key: Seq<char>,
    pub event_id: Seq<char>,
    pub title: Seq<char>,
    pub start: i64,
    pub source: Source,
}

impl View for FlybyJob {
    type V = JobView;

    open spec fn view(&self) -> JobView {
        JobView {
            key: self.key@,
            event_id: self.event_id@,
            title: self.title@,
            start: self.start,
            source: self.source,
        }
    }
}

impl FlybyJob {
    /// A field-by-field copy.
    pub fn copy_of(&self) -> (r: FlybyJob)
        ensures
            r@ == self@,
    {
        FlybyJob {
            key: self.key.clone(),
            event_id: self.event_id.clone(),
            title: self.title.clone(),
            start: self.start,
            source: self.source,
        }
    }
}

/// A job together with the moment it flies.
pub struct QueueEntry {
    pub fire_at: i128,
    pub job: FlybyJob,
}

/// Flyby jobs ordered by the moment they fly; jobs flying at the same
/// moment keep the order in which they were queued.
pub struct FlybyQueue {
    entries: Vec<QueueEntry>,
}

/// `(fire_at, job)` pairs in the order they fly.
pub open spec fn entries_view(v: Seq<QueueEntry>) -> Seq<(int, JobView)> {
    v.map_values(|e: QueueEntry| (e.fire_at as int, e.job@))
}

pub open spec fn ordered_by_time(q: Seq<(int, JobView)>) -> bool {
    forall|i: int, j: int| 0 <= i < j < q.len() ==> q[i].0 <= q[j].0
}

impl View for FlybyQueue {
    type V = Seq<(int, JobView)>;

    closed spec fn view(&self) -> Seq<(int, JobView)> {
        entries_view(self.entries@)
    }
}

impl FlybyQueue {
    #[verifier::type_invariant]
    spec fn wf(self) -> bool {
        ordered_by_time(entries_view(self.entries@))
    }

    /// An empty queue.
    pub fn new() -> (q: FlybyQueue)
        ensures
            q@ == Seq::<(int, JobView)>::empty(),
    {
        let q = FlybyQueue { entries: Vec::new() };
        assert(q@ =~= Seq::<(int, JobView)>::empty());
        q
    }

    /// Number of queued jobs.
    pub fn len(&self) -> (n: usize)
        ensures
            n == self@.len(),
    {
        self.entries.len()
    }

    /// All queued jobs, in flying order.
    pub fn jobs(&self) -> (r: Vec<FlybyJob>)
        ensures
            r@.len() == self@.len(),
            forall|i: int| 0 <= i < r@.len() ==> (#[trigger] r@[i])@ == self@[i].1,
    {
        let mut r: Vec<FlybyJob> = Vec::new();
        let mut i: usize = 0;
        while i < self.entries.len()
            invariant
                i <= self.entries.len(),
                r@.len() == i,
                forall|k: int| 0 <= k < i ==> (#[trigger] r@[k])@ == self@[k].1,
            decreases self.entries.len() - i,
        {
            r.push(self.entries[i].job.copy_of());
            i += 1;
        }
        r
    }

    /// The earliest flying time, if anything is queued.
    pub fn first_fire_at(&self) -> (r: Option<i128>)
        ensures
            match r {
                Some(t) => self@.len() > 0 && t == self@[0].0,
                None => self@.len() == 0,
            },
    {
        if self.entries.len() == 0 {
            None
        } else {
            Some(self.entries[0].fire_at)
        }
    }

    /// The flying time of the entry at `i`.
    pub fn fire_at(&self, i: usize) -> (t: i128)
        requires
            i < self@.len(),
        ensures
            t == self@[i as int].0,
    {
        self.entries[i].fire_at
    }

    /// The job of the entry at `i`.
    pub fn job(&self, i: usize) -> (j: &FlybyJob)
        requires
            i < self@.len(),
        ensures
            j@ == self@[i as int].1,
    {
        &self.entries[i].job
    }
}

/// Number of entries flying no later than `f`.
pub open spec fn count_not_after(q: Seq<(int, JobView)>, f: int) -> int
    decreases q.len(),
{
    if q.len() == 0 {
        0
    } else {
        count_not_after(q.drop_last(), f) + if q.last().0 <= f {
            1int
        } else {
            0int
        }
    }
}

/// `q` with `(f, j)` queued after every entry flying no later than `f`.
pub open spec fn insert_by_time(q: Seq<(int, JobView)>, f: int, j: JobView) -> Seq<(int, JobView)> {
    let p = count_not_after(q, f);
    q.take(p).push((f, j)) + q.skip(p)
}

proof fn lemma_count_not_after(q: Seq<(int, JobView)>, f: int, p: int)
    requires
        0 <= p <= q.len(),
        forall|k: int| 0 <= k < p ==> q[k].0 <= f,
        forall|k: int| p <= k < q.len() ==> q[k].0 > f,
    ensures
        count_not_after(q, f) == p,
    decreases q.len(),
{
    if q.len() > 0 {
        if p == q.len() {
            lemma_count_not_after(q.drop_last(), f, p - 1);
        } else {
            lemma_count_not_after(q.drop_last(), f, p);
        }
    }
}

fn insert_entry(entries: &mut Vec<QueueEntry>, e: QueueEntry)
    requires
        ordered_by_time(entries_view(old(entries)@)),
    ensures
        entries_view(final(entries)@) == insert_by_time(
            entries_view(old(entries)@),
            e.fire_at as int,
            e.job@,
        ),
        ordered_by_time(entries_view(final(entries)@)),
{
    let ghost q = entries_view(entries@);
    let ghost f = e.fire_at as int;
    let ghost j = e.job@;
    let mut p = entries.len();
    while p > 0 && entries[p - 1].fire_at > e.fire_at
        invariant
            p <= entries.len(),
            entries_view(entries@) == q,
            ordered_by_time(q),
            f == e.fire_at as int,
            forall|k: int| p <= k < q.len() ==> q[k].0 > f,
        decreases p,
    {
        p -= 1;
        assert(entries_view(entries@)[p as int] == (
            entries@[p as int].fire_at as int,
            entries@[p as int].job@,
        ));
    }
    assert forall|k: int| 0 <= k < p implies q[k].0 <= f by {
        assert(q[k].0 <= q[p - 1].0);
    }
    proof {
        lemma_count_not_after(q, f, p as int);
    }
    entries.insert(p, e);
    assert(entries_view(entries@) =~= insert_by_time(q, f, j));
}


/// The dedupe key of an event occurrence: "{stable_id}@{occurrence}".
pub open spec fn event_key(e: CalEvent) -> Seq<char> {
    e.stable_id@ + seq!['@'] + decimal(e.occurrence as int)
}

/// The job an event becomes.
pub open spec fn event_job(e: CalEvent, source: Source) -> JobView {
    JobView {
        key: event_key(e),
        event_id: e.id@,
        title: e.title@,
        start: e.start,
        source: source,
    }
}

/// Queue under construction, keys seen so far, and `(start, title)` pairs
/// of meetings already queued from EventKit or from the feed.
pub type RebuildState = (Seq<(int, JobView)>, Seq<Seq<char>>, Seq<(i64, Seq<char>)>);

pub open spec fn empty_state() -> RebuildState {
    (Seq::empty(), Seq::empty(), Seq::empty())
}

/// The `(start, title)` of a job.
pub open spec fn job_tag(j: JobView) -> (i64, Seq<char>) {
    (j.start, j.title)
}

/// Keeps a job from the previous queue. A carried feed job yields, as a
/// freshly read one does, to a meeting already queued with the same start
/// and title; any job is dropped when its key is already taken.
pub open spec fn carry_job(st: RebuildState, j: JobView, lead: int) -> RebuildState {
    if j.source == Source::Ics && st.2.contains(job_tag(j)) {
        st
    } else if st.1.contains(j.key) {
        st
    } else {
        let cross = if st.2.contains(job_tag(j)) {
            st.2
        } else {
            st.2.push(job_tag(j))
        };
        (insert_by_time(st.0, j.start - lead, j), st.1.push(j.key), cross)
    }
}

/// Keeps, in order, the jobs of `jobs` that came from `source`.
pub open spec fn carry_jobs(st: RebuildState, jobs: Seq<JobView>, source: Source, lead: int) -> RebuildState
    decreases jobs.len(),
{
    if jobs.len() == 0 {
        st
    } else {
        let before = carry_jobs(st, jobs.drop_last(), source, lead);
        if jobs.last().source == source {
            carry_job(before, jobs.last(), lead)
        } else {
            before
        }
    }
}

/// Queues one event: skipped without an id or when its key is taken; with
/// `cross_check`, also skipped when a meeting with the same start and
/// title is already queued.
pub open spec fn add_event(st: RebuildState, e: CalEvent, source: Source, cross_check: bool, lead: int) -> RebuildState {
    if e.id@.len() == 0 {
        st
    } else if st.1.contains(event_key(e)) {
        st
    } else {
        let keys = st.1.push(event_key(e));
        let tag = (e.start, e.title@);
        if cross_check && st.2.contains(tag) {
            (st.0, keys, st.2)
        } else {
            let cross = if st.2.contains(tag) {
                st.2
            } else {
                st.2.push(tag)
            };
            (insert_by_time(st.0, e.start - lead, event_job(e, source)), keys, cross)
        }
    }
}

pub open spec fn add_events(st: RebuildState, events: Seq<CalEvent>, source: Source, cross_check: bool, lead: int) -> RebuildState
    decreases events.len(),
{
    if events.len() == 0 {
        st
    } else {
        add_event(add_events(st, events.drop_last(), source, cross_check, lead), events.last(), source, cross_check, lead)
    }
}

pub open spec fn queue_jobs(q: Seq<(int, JobView)>) -> Seq<JobView> {
    q.map_values(|e: (int, JobView)| e.1)
}

/// The state after the EventKit result: its events on success, the
/// previous EventKit jobs on a read error.
pub open spec fn after_ekit(prev: Seq<(int, JobView)>, ekit: Result<Vec<CalEvent>, String>, lead: int) -> RebuildState {
    match ekit {
        Ok(events) => add_events(empty_state(), events@, Source::Ekit, false, lead),
        Err(_) => carry_jobs(empty_state(), queue_jobs(prev), Source::Ekit, lead),
    }
}

/// The whole rebuild: EventKit first, then the feed, which yields to
/// EventKit on the same start and title.
pub open spec fn rebuild_state(
    prev: Seq<(int, JobView)>,
    ekit: Result<Vec<CalEvent>, String>,
    ics: Option<Result<Vec<CalEvent>, String>>,
    lead: int,
) -> RebuildState {
    let st = after_ekit(prev, ekit, lead);
    match ics {
        None => st,
        Some(Ok(events)) => add_events(st, events@, Source::Ics, true, lead),
        Some(Err(_)) => carry_jobs(st, queue_jobs(prev), Source::Ics, lead),
    }
}

pub open spec fn rebuilt_queue(
    prev: Seq<(int, JobView)>,
    ekit: Result<Vec<CalEvent>, String>,
    ics: Option<Result<Vec<CalEvent>, String>>,
    lead: int,
) -> Seq<(int, JobView)> {
    rebuild_state(prev, ekit, ics, lead).0
}

/// Every entry of `a` is in `b`.
pub open spec fn within(a: Seq<(int, JobView)>, b: Seq<(int, JobView)>) -> bool {
    forall|x: (int, JobView)| a.contains(x) ==> b.contains(x)
}

proof fn lemma_insert_keeps(q: Seq<(int, JobView)>, f: int, j: JobView)
    ensures
        within(q, insert_by_time(q, f, j)),
        insert_by_time(q, f, j).contains((f, j)),
        insert_by_time(q, f, j).len() == q.len() + 1,
{
    lemma_count_bounds(q, f);
    let p = count_not_after(q, f);
    let r = insert_by_time(q, f, j);
    assert(r[p] == (f, j));
    assert forall|x: (int, JobView)| q.contains(x) implies r.contains(x) by {
        let k = choose|k: int| 0 <= k < q.len() && q[k] == x;
        if k < p {
            assert(r[k] == x);
        } else {
            assert(r[k + 1] == x);
        }
    }
}

proof fn lemma_count_bounds(q: Seq<(int, JobView)>, f: int)
    ensures
        0 <= count_not_after(q, f) <= q.len(),
    decreases q.len(),
{
    if q.len() > 0 {
        lemma_count_bounds(q.drop_last(), f);
    }
}

pub proof fn lemma_carry_grows(st: RebuildState, jobs: Seq<JobView>, source: Source, lead: int, i: int)
    requires
        0 <= i <= jobs.len(),
    ensures
        within(st.0, carry_jobs(st, jobs.take(i), source, lead).0),
        within(carry_jobs(st, jobs.take(i), source, lead).0, carry_jobs(st, jobs, source, lead).0),
    decreases jobs.len(),
{
    if jobs.len() == 0 {
        assert(jobs.take(i) =~= jobs);
    } else if i == jobs.len() {
        assert(jobs.take(i) =~= jobs);
        lemma_carry_grows(st, jobs.drop_last(), source, lead, jobs.len() - 1);
        assert(jobs.drop_last().take(jobs.len() - 1) =~= jobs.drop_last());
        let before = carry_jobs(st, jobs.drop_last(), source, lead);
        lemma_insert_keeps(before.0, jobs.last().start - lead, jobs.last());
    } else {
        lemma_carry_grows(st, jobs.drop_last(), source, lead, i);
        assert(jobs.drop_last().take(i) =~= jobs.take(i));
        let before = carry_jobs(st, jobs.drop_last(), source, lead);
        lemma_insert_keeps(before.0, jobs.last().start - lead, jobs.last());
    }
}

pub proof fn lemma_add_grows(st: RebuildState, events: Seq<CalEvent>, source: Source, cross_check: bool, lead: int, i: int)
    requires
        0 <= i <= events.len(),
    ensures
        within(st.0, add_events(st, events.take(i), source, cross_check, lead).0),
        within(
            add_events(st, events.take(i), source, cross_check, lead).0,
            add_events(st, events, source, cross_check, lead).0,
        ),
    decreases events.len(),
{
    if events.len() == 0 {
        assert(events.take(i) =~= events);
    } else {
        let j = if i == events.len() { events.len() - 1 } else { i };
        lemma_add_grows(st, events.drop_last(), source, cross_check, lead, j);
        let before = add_events(st, events.drop_last(), source, cross_check, lead);
        let e = events.last();
        lemma_insert_keeps(before.0, e.start - lead, event_job(e, source));
        if i == events.len() {
            assert(events.take(i) =~= events);
            assert(events.drop_last().take(j) =~= events.drop_last());
        } else {
            assert(events.drop_last().take(i) =~= events.take(i));
        }
    }
}

/// Queues `j` at `j.start - lead`, unless a feed job meets a queued
/// meeting with the same start and title, or the key is taken.
fn carry_one(
    queue: &mut Vec<QueueEntry>,
    keys: &mut Vec<String>,
    cross: &mut Vec<(i64, String)>,
    j: &FlybyJob,
    lead: i64,
)
    requires
        ordered_by_time(entries_view(old(queue)@)),
    ensures
        ordered_by_time(entries_view(final(queue)@)),
        (entries_view(final(queue)@), keys_view(final(keys)@), tags_view(final(cross)@)) == carry_job(
            (entries_view(old(queue)@), keys_view(old(keys)@), tags_view(old(cross)@)),
            j@,
            lead as int,
        ),
{
    let ghost st = (entries_view(queue@), keys_view(keys@), tags_view(cross@));
    let tagged = contains_tag(cross, j.start, &j.title);
    if j.source == Source::Ics && tagged {
        return;
    }
    if contains_string(keys, &j.key) {
        return;
    }
    let fire_at = (j.start as i128) - (lead as i128);
    insert_entry(queue, QueueEntry { fire_at, job: j.copy_of() });
    keys.push(j.key.clone());
    assert(keys_view(keys@) =~= st.1.push(j.key@));
    if !tagged {
        cross.push((j.start, j.title.clone()));
        assert(tags_view(cross@) =~= st.2.push((j.start, j.title@)));
    }
}

/// `v` holds a string with the characters of `s`.
pub fn contains_string(v: &Vec<String>, s: &String) -> (b: bool)
    ensures
        b == v@.map_values(|k: String| k@).contains(s@),
{
    let ghost m = v@.map_values(|k: String| k@);
    let mut i: usize = 0;
    while i < v.len()
        invariant
            i <= v.len(),
            m == v@.map_values(|k: String| k@),
            forall|k: int| 0 <= k < i ==> m[k] != s@,
        decreases v.len() - i,
    {
        if v[i] == *s {
            assert(m[i as int] == s@);
            return true;
        }
        i += 1;
    }
    false
}


pub open spec fn keys_view(v: Seq<String>) -> Seq<Seq<char>> {
    v.map_values(|k: String| k@)
}

pub open spec fn tags_view(v: Seq<(i64, String)>) -> Seq<(i64, Seq<char>)> {
    v.map_values(|c: (i64, String)| (c.0, c.1@))
}

/// Carries over, in flying order, the previous jobs from `source`.
fn carry_over(
    queue: &mut Vec<QueueEntry>,
    keys: &mut Vec<String>,
    cross: &mut Vec<(i64, String)>,
    prev: &FlybyQueue,
    source: Source,
    lead: i64,
)
    requires
        ordered_by_time(entries_view(old(queue)@)),
    ensures
        ordered_by_time(entries_view(final(queue)@)),
        (entries_view(final(queue)@), keys_view(final(keys)@), tags_view(final(cross)@)) == carry_jobs(
            (entries_view(old(queue)@), keys_view(old(keys)@), tags_view(old(cross)@)),
            queue_jobs(prev@),
            source,
            lead as int,
        ),
{
    let ghost st0 = (entries_view(queue@), keys_view(keys@), tags_view(cross@));
    let ghost jobs = queue_jobs(prev@);
    assert(jobs.take(0) =~= Seq::<JobView>::empty());
    let mut i: usize = 0;
    while i < prev.entries.len()
        invariant
            i <= prev.entries.len(),
            jobs == queue_jobs(prev@),
            jobs.len() == prev.entries@.len(),
            prev@ == entries_view(prev.entries@),
            ordered_by_time(entries_view(queue@)),
            (entries_view(queue@), keys_view(keys@), tags_view(cross@)) == carry_jobs(
                st0,
                jobs.take(i as int),
                source,
                lead as int,
            ),
        decreases prev.entries.len() - i,
    {
        let j = &prev.entries[i].job;
        proof {
            assert(jobs.take(i + 1).drop_last() =~= jobs.take(i as int));
            assert(jobs[i as int] == j@);
        }
        if j.source == source {
            carry_one(queue, keys, cross, j, lead);
        }
        i += 1;
    }
    assert(jobs.take(prev.entries.len() as int) =~= jobs);
}

/// A `(start, title)` pair with the characters of `title` is in `v`.
fn contains_tag(v: &Vec<(i64, String)>, start: i64, title: &String) -> (b: bool)
    ensures
        b == tags_view(v@).contains((start, title@)),
{
    let ghost m = tags_view(v@);
    let mut i: usize = 0;
    while i < v.len()
        invariant
            i <= v.len(),
            m == tags_view(v@),
            forall|k: int| 0 <= k < i ==> m[k] != (start, title@),
        decreases v.len() - i,
    {
        if v[i].0 == start && v[i].1 == *title {
            assert(m[i as int] == (start, title@));
            return true;
        }
        i += 1;
    }
    false
}

/// The dedupe key of `e`.
pub fn event_key_string(e: &CalEvent) -> (k: String)
    ensures
        k@ == event_key(*e),
{
    let at: Vec<char> = vec!['@'];
    let key = concat_chars(
        &concat_chars(&crate::text::chars_of(e.stable_id.as_str()), &at),
        &decimal_chars(e.occurrence),
    );
    string_of(&key)
}

fn add_one(
    queue: &mut Vec<QueueEntry>,
    keys: &mut Vec<String>,
    cross: &mut Vec<(i64, String)>,
    e: &CalEvent,
    source: Source,
    cross_check: bool,
    lead: i64,
)
    requires
        ordered_by_time(entries_view(old(queue)@)),
    ensures
        ordered_by_time(entries_view(final(queue)@)),
        (entries_view(final(queue)@), keys_view(final(keys)@), tags_view(final(cross)@)) == add_event(
            (entries_view(old(queue)@), keys_view(old(keys)@), tags_view(old(cross)@)),
            *e,
            source,
            cross_check,
            lead as int,
        ),
{
    let ghost st = (entries_view(queue@), keys_view(keys@), tags_view(cross@));
    if e.id.as_str().is_empty() {
        return;
    }
    let key = event_key_string(e);
    if contains_string(keys, &key) {
        return;
    }
    keys.push(key.clone());
    assert(keys_view(keys@) =~= st.1.push(key@));
    let tagged = contains_tag(cross, e.start, &e.title);
    if cross_check && tagged {
        return;
    }
    if !tagged {
        cross.push((e.start, e.title.clone()));
        assert(tags_view(cross@) =~= st.2.push((e.start, e.title@)));
    }
    let ghost q = st.0;
    let ghost jv = event_job(*e, source);
    let job = FlybyJob {
        key,
        event_id: e.id.clone(),
        title: e.title.clone(),
        start: e.start,
        source,
    };
    assert(job@ == jv);
    insert_entry(queue, QueueEntry { fire_at: (e.start as i128) - (lead as i128), job });
}

fn add_all(
    queue: &mut Vec<QueueEntry>,
    keys: &mut Vec<String>,
    cross: &mut Vec<(i64, String)>,
    events: &Vec<CalEvent>,
    source: Source,
    cross_check: bool,
    lead: i64,
)
    requires
        ordered_by_time(entries_view(old(queue)@)),
    ensures
        ordered_by_time(entries_view(final(queue)@)),
        (entries_view(final(queue)@), keys_view(final(keys)@), tags_view(final(cross)@))
            == add_events(
            (entries_view(old(queue)@), keys_view(old(keys)@), tags_view(old(cross)@)),
            events@,
            source,
            cross_check,
            lead as int,
        ),
{
    let ghost st0 = (entries_view(queue@), keys_view(keys@), tags_view(cross@));
    assert(events@.take(0) =~= Seq::<CalEvent>::empty());
    let mut i: usize = 0;
    while i < events.len()
        invariant
            i <= events.len(),
            ordered_by_time(entries_view(queue@)),
            (entries_view(queue@), keys_view(keys@), tags_view(cross@)) == add_events(
                st0,
                events@.take(i as int),
                source,
                cross_check,
                lead as int,
            ),
        decreases events.len() - i,
    {
        proof {
            assert(events@.take(i + 1).drop_last() =~= events@.take(i as int));
        }
        add_one(queue, keys, cross, &events[i], source, cross_check, lead);
        i += 1;
    }
    assert(events@.take(events.len() as int) =~= events@);
}

/// Rebuilds the queue after a poll. Each source manages its own jobs:
/// a successful read replaces them (an empty read empties them), a failed
/// read keeps the previous ones. Within a source the key
/// `stable_id@occurrence` dedupes; across sources the feed yields to
/// EventKit on the same start and title. Every job flies at `start - lead`.
pub fn rebuild_queue(
    prev: &FlybyQueue,
    ekit: Result<Vec<CalEvent>, String>,
    ics: Option<Result<Vec<CalEvent>, String>>,
    lead: i64,
) -> (q: FlybyQueue)
    ensures
        q@ == rebuilt_queue(prev@, ekit, ics, lead as int),
        ordered_by_time(q@),
{
    let mut queue: Vec<QueueEntry> = Vec::new();
    let mut keys: Vec<String> = Vec::new();
    let mut cross: Vec<(i64, String)> = Vec::new();
    assert(entries_view(queue@) =~= Seq::<(int, JobView)>::empty());
    assert(keys_view(keys@) =~= Seq::<Seq<char>>::empty());
    assert(tags_view(cross@) =~= Seq::<(i64, Seq<char>)>::empty());
    match &ekit {
        Ok(events) => {
            add_all(&mut queue, &mut keys, &mut cross, events, Source::Ekit, false, lead);
        },
        Err(_) => {
            carry_over(&mut queue, &mut keys, &mut cross, prev, Source::Ekit, lead);
        },
    }
    match &ics {
        None => {},
        Some(Ok(events)) => {
            add_all(&mut queue, &mut keys, &mut cross, events, Source::Ics, true, lead);
        },
        Some(Err(_)) => {
            carry_over(&mut queue, &mut keys, &mut cross, prev, Source::Ics, lead);
        },
    }
    FlybyQueue { entries: queue }
}


/// RFC 3986 unreserved bytes: letters, digits, `-`, `_`, `.`, `~`.
pub open spec fn is_unreserved(b: u8) -> bool {
    (0x41 <= b && b <= 0x5A) || (0x61 <= b && b <= 0x7A) || (0x30 <= b && b <= 0x39) || b == 0x2D
        || b == 0x5F || b == 0x2E || b == 0x7E
}

/// Upper-case hexadecimal digit for `n < 16`.
pub open spec fn hex_digit(n: int) -> char {
    if n == 0 { '0' }
    else if n == 1 { '1' }
    else if n == 2 { '2' }
    else if n == 3 { '3' }
    else if n == 4 { '4' }
    else if n == 5 { '5' }
    else if n == 6 { '6' }
    else if n == 7 { '7' }
    else if n == 8 { '8' }
    else if n == 9 { '9' }
    else if n == 10 { 'A' }
    else if n == 11 { 'B' }
    else if n == 12 { 'C' }
    else if n == 13 { 'D' }
    else if n == 14 { 'E' }
    else { 'F' }
}

/// One byte of the query value: itself when unreserved, else `%XX`.
pub open spec fn encode_byte(b: u8) -> Seq<char> {
    if is_unreserved(b) {
        seq![b as char]
    } else {
        seq!['%', hex_digit((b / 16) as int), hex_digit((b % 16) as int)]
    }
}

/// The percent-encoding of the bytes `bs`.
pub open spec fn percent_encoded(bs: Seq<u8>) -> Seq<char>
    decreases bs.len(),
{
    if bs.len() == 0 {
        Seq::empty()
    } else {
        encode_byte(bs[0]) + percent_encoded(bs.drop_first())
    }
}

pub proof fn lemma_percent_encoded_push(bs: Seq<u8>, b: u8)
    ensures
        percent_encoded(bs.push(b)) == percent_encoded(bs) + encode_byte(b),
    decreases bs.len(),
{
    if bs.len() == 0 {
        assert(bs.push(b).drop_first() =~= Seq::<u8>::empty());
        assert(percent_encoded(Seq::<u8>::empty()) =~= Seq::<char>::empty());
        assert(percent_encoded(bs.push(b)) =~= encode_byte(b));
    } else {
        assert(bs.push(b).drop_first() =~= bs.drop_first().push(b));
        lemma_percent_encoded_push(bs.drop_first(), b);
        assert(percent_encoded(bs.push(b)) =~= percent_encoded(bs) + encode_byte(b));
    }
}

fn hex_digit_exec(n: u8) -> (c: char)
    requires
        n < 16,
    ensures
        c == hex_digit(n as int),
{
    if n == 0 { '0' }
    else if n == 1 { '1' }
    else if n == 2 { '2' }
    else if n == 3 { '3' }
    else if n == 4 { '4' }
    else if n == 5 { '5' }
    else if n == 6 { '6' }
    else if n == 7 { '7' }
    else if n == 8 { '8' }
    else if n == 9 { '9' }
    else if n == 10 { 'A' }
    else if n == 11 { 'B' }
    else if n == 12 { 'C' }
    else if n == 13 { 'D' }
    else if n == 14 { 'E' }
    else { 'F' }
}

/// Percent-encoding for a query value: RFC 3986 unreserved bytes stay,
/// every other UTF-8 byte becomes `%XX` in upper-case hex.
pub fn percent_encode(s: &str) -> (r: String)
    ensures
        r@ == percent_encoded(encode_utf8(s@)),
{
    let bytes = s.as_bytes();
    let mut out: Vec<char> = Vec::new();
    let mut i: usize = 0;
    while i < bytes.len()
        invariant
            i <= bytes@.len(),
            bytes@ == encode_utf8(s@),
            out@ == percent_encoded(bytes@.take(i as int)),
        decreases bytes.len() - i,
    {
        let b = bytes[i];
        proof {
            assert(bytes@.take(i + 1) =~= bytes@.take(i as int).push(b));
            lemma_percent_encoded_push(bytes@.take(i as int), b);
        }
        if (0x41 <= b && b <= 0x5A) || (0x61 <= b && b <= 0x7A) || (0x30 <= b && b <= 0x39) || b
            == 0x2D || b == 0x5F || b == 0x2E || b == 0x7E {
            out.push(b as char);
        } else {
            out.push('%');
            out.push(hex_digit_exec(b / 16));
            out.push(hex_digit_exec(b % 16));
        }
        i += 1;
    }
    assert(bytes@.take(bytes@.len() as int) =~= bytes@);
    string_of(&out)
}

} // verus!
