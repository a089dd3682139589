//! Decisions of the calendar service: the health snapshot shown to the UI,
//! the bounded budget for resetting a dead calendar store, how a read that
//! came back empty is judged, and the last check before a flyby.

use vstd::prelude::*;
use crate::calendar::{CalEvent, CalInfo};
use crate::text::{has_prefix, same_text, starts_with};

verus! {

/// Result of the last check of a meeting right before its flyby.
/// `Unknown` means the service could not read: it is no proof of cancellation.
#[derive(Debug, Clone, Copy, PartialEq, Eq, Structural)]
pub enum EventValidity {
    Valid,
    Gone,
    Unknown,
}

/// The truthful state of the calendar layer, without any names.
#[derive(Debug, Clone)]
pub struct CalendarHealth {
    pub status: String,
    pub calendars: u32,
    pub last_success: Option<i64>,
    pub last_error: Option<String>,
    pub consecutive_failures: u32,
    pub store_generation: u32,
}

impl CalendarHealth {
    /// The snapshot before any read, with the current permission status.
    pub fn initial(status: String) -> (h: CalendarHealth)
        ensures
            h.status == status,
            h.calendars == 0,
            h.last_success is None,
            h.last_error is None,
            h.consecutive_failures == 0,
            h.store_generation == 0,
    {
        CalendarHealth {
            status,
            calendars: 0,
            last_success: None,
            last_error: None,
            consecutive_failures: 0,
            store_generation: 0,
        }
    }
}

/// Bounded recovery: store resets at least 60 s apart and at most five in
/// each hour-long window.
#[derive(Debug, Clone, Copy)]
pub struct ResetBudget {
    pub last_reset: i64,
    pub window_start: i64,
    pub in_window: u32,
}

/// Seconds between two resets, at least.
pub const RESET_MIN_GAP: i64 = 60;
/// Length of a budget window in seconds.
pub const RESET_WINDOW: i64 = 3600;
/// Resets allowed in one window.
pub const RESET_MAX_IN_WINDOW: u32 = 5;

/// The budget after asking for a reset at `now`, and whether it was granted.
pub open spec fn allow_spec(b: ResetBudget, now: i64) -> (ResetBudget, bool) {
    let b1 = if now - b.window_start >= RESET_WINDOW {
        ResetBudget { last_reset: b.last_reset, window_start: now, in_window: 0 }
    } else {
        b
    };
    if now - b1.last_reset < RESET_MIN_GAP || b1.in_window >= RESET_MAX_IN_WINDOW {
        (b1, false)
    } else {
        (ResetBudget { last_reset: now, window_start: b1.window_start, in_window: (b1.in_window + 1) as u32 }, true)
    }
}

impl ResetBudget {
    /// A budget that has never reset.
    pub fn new() -> (b: ResetBudget)
        ensures
            b.last_reset == 0 && b.window_start == 0 && b.in_window == 0,
    {
        ResetBudget { last_reset: 0, window_start: 0, in_window: 0 }
    }

    /// May the store be reset at `now`?
    pub fn allow(&mut self, now: i64) -> (granted: bool)
        ensures
            (*final(self), granted) == allow_spec(*old(self), now),
    {
        if (now as i128) - (self.window_start as i128) >= RESET_WINDOW as i128 {
            self.window_start = now;
            self.in_window = 0;
        }
        if (now as i128) - (self.last_reset as i128) < RESET_MIN_GAP as i128 || self.in_window >= RESET_MAX_IN_WINDOW {
            return false;
        }
        self.last_reset = now;
        self.in_window += 1;
        true
    }
}

/// A reset is granted only 60 s or more after the previous one, a window
/// never counts more than five resets, and once an hour has passed since
/// the window opened a new window starts with a fresh budget.
pub proof fn reset_budget_laws(b: ResetBudget, now: i64)
    requires
        b.in_window <= RESET_MAX_IN_WINDOW,
    ensures
        allow_spec(b, now).1 ==> now - b.last_reset >= RESET_MIN_GAP && allow_spec(b, now).0.last_reset == now,
        allow_spec(b, now).0.in_window <= RESET_MAX_IN_WINDOW,
        now - b.window_start < RESET_WINDOW && b.in_window >= RESET_MAX_IN_WINDOW ==> !allow_spec(b, now).1,
        now - b.window_start >= RESET_WINDOW && now - b.last_reset >= RESET_MIN_GAP ==> allow_spec(b, now).1
            && allow_spec(b, now).0.in_window == 1 && allow_spec(b, now).0.window_start == now,
{
}

} // verus!

verus! {

/// A health snapshot as plain values.
pub struct HealthView {
    pub status: Seq<char>,
    pub calendars: u32,
    pub last_success: Option<i64>,
    pub last_error: Option<Seq<char>>,
    pub consecutive_failures: u32,
    pub store_generation: u32,
}

impl View for CalendarHealth {
    type V = HealthView;

    open spec fn view(&self) -> HealthView {
        HealthView {
            status: self.status@,
            calendars: self.calendars,
            last_success: self.last_success,
            last_error: match self.last_error {
                Some(e) => Some(e@),
                None => None,
            },
            consecutive_failures: self.consecutive_failures,
            store_generation: self.store_generation,
        }
    }
}

/// The calendar service's own state: the health snapshot, the most
/// calendars ever seen in this process, and the reset budget.
#[derive(Debug, Clone)]
pub struct ServiceState {
    pub health: CalendarHealth,
    /// A sudden zero after this was positive means a dead store, not an
    /// empty system.
    pub max_cals_seen: u32,
    pub resets: ResetBudget,
}

/// The service state as plain values.
pub struct ServiceView {
    pub health: HealthView,
    pub max_cals_seen: u32,
    pub resets: ResetBudget,
}

impl View for ServiceState {
    type V = ServiceView;

    open spec fn view(&self) -> ServiceView {
        ServiceView { health: self.health@, max_cals_seen: self.max_cals_seen, resets: self.resets }
    }
}

/// What the service does next after a read.
#[derive(Debug)]
pub enum Recovery {
    /// The read is judged: `Ok` hands out what was read, `Err` names the failure.
    Done(Result<(), String>),
    /// Replace the store and read once more.
    ResetAndRetry,
}

pub open spec fn authorized_text() -> Seq<char> {
    seq!['a', 'u', 't', 'h', 'o', 'r', 'i', 'z', 'e', 'd']
}

pub open spec fn no_permission_text() -> Seq<char> {
    seq!['n', 'o', '-', 'p', 'e', 'r', 'm', 'i', 's', 's', 'i', 'o', 'n']
}

pub open spec fn unavailable_text() -> Seq<char> {
    seq!['s', 'e', 'r', 'v', 'i', 'c', 'e', '-', 'u', 'n', 'a', 'v', 'a', 'i', 'l', 'a', 'b', 'l', 'e']
}

/// The state after a successful read seeing `calendars` calendars at `now`.
pub open spec fn after_success(s: ServiceView, status: Seq<char>, calendars: u32, now: i64) -> ServiceView {
    ServiceView {
        health: HealthView {
            status: status,
            calendars: calendars,
            last_success: Some(now),
            last_error: None,
            consecutive_failures: 0,
            store_generation: s.health.store_generation,
        },
        max_cals_seen: if s.max_cals_seen >= calendars { s.max_cals_seen } else { calendars },
        resets: s.resets,
    }
}

/// One more, wrapping as the counters' `+= 1` does in a release build.
pub open spec fn next_count(x: u32) -> u32 {
    if x == u32::MAX {
        0
    } else {
        (x + 1) as u32
    }
}

/// The state after a failed read with failure code `code`.
pub open spec fn after_failure(s: ServiceView, status: Seq<char>, code: Seq<char>) -> ServiceView {
    ServiceView {
        health: HealthView {
            status: status,
            calendars: s.health.calendars,
            last_success: s.health.last_success,
            last_error: Some(code),
            consecutive_failures: next_count(s.health.consecutive_failures),
            store_generation: s.health.store_generation,
        },
        max_cals_seen: s.max_cals_seen,
        resets: s.resets,
    }
}

/// Giving up on an empty list: an outage when calendars were seen before,
/// else the truth.
pub open spec fn give_up_list(s: ServiceView, status: Seq<char>, now: i64) -> (ServiceView, Result<(), Seq<char>>) {
    if s.max_cals_seen > 0 {
        (after_failure(s, status, unavailable_text()), Err(unavailable_text()))
    } else {
        (after_success(s, status, 0, now), Ok(()))
    }
}

/// A result whose error is stated by its characters.
pub open spec fn result_view(r: Result<(), String>) -> Result<(), Seq<char>> {
    match r {
        Ok(_) => Ok(()),
        Err(e) => Err(e@),
    }
}

/// The state of a fresh service.
pub open spec fn fresh_service(status: Seq<char>) -> ServiceView {
    ServiceView {
        health: HealthView {
            status: status,
            calendars: 0,
            last_success: None,
            last_error: None,
            consecutive_failures: 0,
            store_generation: 0,
        },
        max_cals_seen: 0,
        resets: ResetBudget { last_reset: 0, window_start: 0, in_window: 0 },
    }
}

impl ServiceState {
    /// The state of a fresh service.
    pub fn new(status: String) -> (s: ServiceState)
        ensures
            s@ == fresh_service(status@),
    {
        ServiceState { health: CalendarHealth::initial(status), max_cals_seen: 0, resets: ResetBudget::new() }
    }

    /// A new store was created.
    pub fn note_store_created(&mut self)
        ensures
            final(self)@ == (ServiceView {
                health: HealthView { store_generation: next_count(old(self)@.health.store_generation), ..old(self)@.health },
                ..old(self)@
            }),
    {
        self.health.store_generation = if self.health.store_generation == u32::MAX {
            0
        } else {
            self.health.store_generation + 1
        };
    }

    /// Records a successful read that saw `calendars` calendars.
    pub fn success(&mut self, status: String, calendars: u32, now: i64)
        ensures
            final(self)@ == after_success(old(self)@, status@, calendars, now),
    {
        self.health.status = status;
        self.health.calendars = calendars;
        self.health.last_success = Some(now);
        self.health.last_error = None;
        self.health.consecutive_failures = 0;
        if self.max_cals_seen < calendars {
            self.max_cals_seen = calendars;
        }
    }

    /// Records a failed read with failure code `code`.
    pub fn failure(&mut self, status: String, code: String)
        ensures
            final(self)@ == after_failure(old(self)@, status@, code@),
    {
        self.health.status = status;
        self.health.last_error = Some(code);
        self.health.consecutive_failures = if self.health.consecutive_failures == u32::MAX {
            0
        } else {
            self.health.consecutive_failures + 1
        };
    }

    fn give_up(&mut self, status: String, now: i64) -> (r: Result<(), String>)
        ensures
            (final(self)@, result_view(r)) == give_up_list(old(self)@, status@, now),
    {
        if self.max_cals_seen > 0 {
            let code: String = "service-unavailable".to_owned();
            proof {
                reveal_strlit("service-unavailable");
            }
            assert(code@ =~= unavailable_text());
            self.failure(status, code.clone());
            Err(code)
        } else {
            self.success(status, 0, now);
            Ok(())
        }
    }
}


/// `s` with the reset budget replaced.
pub open spec fn with_resets(s: ServiceView, b: ResetBudget) -> ServiceView {
    ServiceView { health: s.health, max_cals_seen: s.max_cals_seen, resets: b }
}

/// Judging the first calendar list read: `None` asks for a store reset and
/// a second read.
pub open spec fn list_first_spec(s: ServiceView, status: Seq<char>, count: usize, now: i64)
    -> (ServiceView, Option<Result<(), Seq<char>>>)
{
    if status != authorized_text() {
        (after_failure(s, status, no_permission_text()), Some(Err(no_permission_text())))
    } else if count > 0 {
        (after_success(s, status, count as u32, now), Some(Ok(())))
    } else {
        let (b, granted) = allow_spec(s.resets, now);
        if granted {
            (with_resets(s, b), None)
        } else {
            let (s2, r) = give_up_list(with_resets(s, b), status, now);
            (s2, Some(r))
        }
    }
}

/// Judging the calendar list read again after a reset.
pub open spec fn list_retry_spec(s: ServiceView, status: Seq<char>, count: usize, now: i64)
    -> (ServiceView, Result<(), Seq<char>>)
{
    if count > 0 {
        (after_success(s, status, count as u32, now), Ok(()))
    } else {
        give_up_list(s, status, now)
    }
}

/// Judging the first event read: `found` says events came back, `calendars`
/// is how many calendars the store sees.
pub open spec fn fetch_first_spec(s: ServiceView, status: Seq<char>, found: bool, calendars: u32, now: i64)
    -> (ServiceView, Option<Result<(), Seq<char>>>)
{
    if status != authorized_text() {
        (after_failure(s, status, no_permission_text()), Some(Err(no_permission_text())))
    } else if found {
        (after_success(s, status, calendars, now), Some(Ok(())))
    } else if calendars == 0 && s.max_cals_seen > 0 {
        let (b, granted) = allow_spec(s.resets, now);
        if granted {
            (with_resets(s, b), None)
        } else {
            (after_failure(with_resets(s, b), status, unavailable_text()), Some(Err(unavailable_text())))
        }
    } else {
        (after_success(s, status, calendars, now), Some(Ok(())))
    }
}

/// Judging the event read again after a reset.
pub open spec fn fetch_retry_spec(s: ServiceView, status: Seq<char>, calendars: u32, now: i64)
    -> (ServiceView, Result<(), Seq<char>>)
{
    if calendars > 0 {
        (after_success(s, status, calendars, now), Ok(()))
    } else {
        (after_failure(s, status, unavailable_text()), Err(unavailable_text()))
    }
}

pub open spec fn recovery_view(r: Recovery) -> Option<Result<(), Seq<char>>> {
    match r {
        Recovery::Done(res) => Some(result_view(res)),
        Recovery::ResetAndRetry => None,
    }
}

fn is_authorized(status: &String) -> (b: bool)
    ensures
        b == (status@ == authorized_text()),
{
    proof {
        reveal_strlit("authorized");
        assert("authorized"@ =~= authorized_text());
    }
    same_text(status.as_str(), "authorized")
}

fn no_permission() -> (s: String)
    ensures
        s@ == no_permission_text(),
{
    proof {
        reveal_strlit("no-permission");
    }
    "no-permission".to_owned()
}

fn service_unavailable() -> (s: String)
    ensures
        s@ == unavailable_text(),
{
    proof {
        reveal_strlit("service-unavailable");
    }
    "service-unavailable".to_owned()
}

impl ServiceState {
    /// Judges the first read of the calendar list (`count` calendars seen).
    /// Zero calendars while authorized is either an empty system or a dead
    /// store: one budgeted reset decides.
    pub fn list_first(&mut self, status: String, count: usize, now: i64) -> (r: Recovery)
        ensures
            (final(self)@, recovery_view(r)) == list_first_spec(old(self)@, status@, count, now),
    {
        if !is_authorized(&status) {
            self.failure(status, no_permission());
            return Recovery::Done(Err(no_permission()));
        }
        if count > 0 {
            self.success(status, #[verifier::truncate] (count as u32), now);
            return Recovery::Done(Ok(()));
        }
        if self.resets.allow(now) {
            return Recovery::ResetAndRetry;
        }
        Recovery::Done(self.give_up(status, now))
    }

    /// Judges the calendar list read again after a store reset.
    pub fn list_retry(&mut self, status: String, count: usize, now: i64) -> (r: Result<(), String>)
        ensures
            (final(self)@, result_view(r)) == list_retry_spec(old(self)@, status@, count, now),
    {
        if count > 0 {
            self.success(status, #[verifier::truncate] (count as u32), now);
            return Ok(());
        }
        self.give_up(status, now)
    }

    /// Judges the first read of events. An empty result is legitimate; a
    /// dead store shows as calendars gone that were seen before, and gets
    /// one budgeted reset.
    pub fn fetch_first(&mut self, status: String, found: bool, calendars: u32, now: i64) -> (r: Recovery)
        ensures
            (final(self)@, recovery_view(r)) == fetch_first_spec(old(self)@, status@, found, calendars, now),
    {
        if !is_authorized(&status) {
            self.failure(status, no_permission());
            return Recovery::Done(Err(no_permission()));
        }
        if found {
            self.success(status, calendars, now);
            return Recovery::Done(Ok(()));
        }
        if calendars == 0 && self.max_cals_seen > 0 {
            if self.resets.allow(now) {
                return Recovery::ResetAndRetry;
            }
            self.failure(status, service_unavailable());
            return Recovery::Done(Err(service_unavailable()));
        }
        self.success(status, calendars, now);
        Recovery::Done(Ok(()))
    }

    /// Judges the event read again after a store reset.
    pub fn fetch_retry(&mut self, status: String, calendars: u32, now: i64) -> (r: Result<(), String>)
        ensures
            (final(self)@, result_view(r)) == fetch_retry_spec(old(self)@, status@, calendars, now),
    {
        if calendars > 0 {
            self.success(status, calendars, now);
            return Ok(());
        }
        self.failure(status, service_unavailable());
        Err(service_unavailable())
    }

    /// The answer to an access request came back with the permission
    /// `status` read after it. A store made before the grant may not see
    /// the permission, so a grant asks for a fresh store.
    pub fn access_answered(&mut self, granted: bool, status: String) -> (recreate: bool)
        ensures
            recreate == granted,
            final(self)@ == (ServiceView {
                health: HealthView { status: status@, ..old(self)@.health },
                ..old(self)@
            }),
    {
        self.health.status = status;
        granted
    }

    /// The permission status was read again (after an access request or for
    /// a health report).
    pub fn note_status(&mut self, status: String)
        ensures
            final(self)@ == (ServiceView {
                health: HealthView { status: status@, ..old(self)@.health },
                ..old(self)@
            }),
    {
        self.health.status = status;
    }
}

/// A read saw the meeting `id` starting at `start`.
pub open spec fn read_has_event(events: Seq<CalEvent>, id: Seq<char>, start: i64) -> bool {
    exists|i: int| 0 <= i < events.len() && (#[trigger] events[i]).id@ == id && events[i].start == start
}

/// The verdict a read of the coming hours gives on a meeting.
pub open spec fn verdict(read: Result<Vec<CalEvent>, String>, id: Seq<char>, start: i64) -> EventValidity {
    match read {
        Ok(events) => if read_has_event(events@, id, start) {
            EventValidity::Valid
        } else {
            EventValidity::Gone
        },
        Err(_) => EventValidity::Unknown,
    }
}

/// The verdict on meeting `event_id` at `start` from a read of the coming
/// hours: still there, gone, or unknown when the read failed.
pub fn validity_from_read(read: &Result<Vec<CalEvent>, String>, event_id: &str, start: i64) -> (v: EventValidity)
    ensures
        v == verdict(*read, event_id@, start),
{
    match read {
        Ok(events) => {
            let mut i: usize = 0;
            while i < events.len()
                invariant
                    i <= events.len(),
                    *read == Ok::<Vec<CalEvent>, String>(*events),
                    forall|k: int| 0 <= k < i ==> !((#[trigger] events@[k]).id@ == event_id@ && events@[k].start == start),
                decreases events.len() - i,
            {
                if events[i].start == start && same_text(events[i].id.as_str(), event_id) {
                    assert(events@[i as int].id@ == event_id@);
                    assert(read_has_event(events@, event_id@, start));
                    return EventValidity::Valid;
                }
                i += 1;
            }
            EventValidity::Gone
        },
        Err(_) => EventValidity::Unknown,
    }
}

pub open spec fn ics_id_prefix() -> Seq<char> {
    seq!['i', 'c', 's', ':']
}

/// Is the meeting still on? Feed meetings (ids "ics:…") cannot be checked
/// and count as valid; otherwise `read` is the service's read of the coming
/// hours, `None` when the service could not be reached.
pub fn event_still_valid(event_id: &str, start: i64, read: Option<&Result<Vec<CalEvent>, String>>) -> (v: EventValidity)
    ensures
        has_prefix(event_id@, ics_id_prefix()) ==> v == EventValidity::Valid,
        !has_prefix(event_id@, ics_id_prefix()) ==> v == match read {
            Some(r) => verdict(*r, event_id@, start),
            None => EventValidity::Unknown,
        },
{
    proof {
        reveal_strlit("ics:");
        assert("ics:"@ =~= ics_id_prefix());
    }
    if starts_with(event_id, "ics:") {
        return EventValidity::Valid;
    }
    match read {
        Some(r) => validity_from_read(r, event_id, start),
        None => EventValidity::Unknown,
    }
}

/// A calendar with id `id` is among `cals`.
pub open spec fn has_calendar(cals: Seq<CalInfo>, id: Seq<char>) -> bool {
    exists|i: int| 0 <= i < cals.len() && (#[trigger] cals[i]).id@ == id
}

/// How many of `selected` are not among `cals`.
pub open spec fn missing_count(selected: Seq<String>, cals: Seq<CalInfo>) -> nat
    decreases selected.len(),
{
    if selected.len() == 0 {
        0
    } else {
        missing_count(selected.drop_last(), cals) + if has_calendar(cals, selected.last()@) {
            0nat
        } else {
            1nat
        }
    }
}

/// The number of selected calendars the service cannot see right now, to
/// be reported to the UI; `None` when there is nothing to report (no
/// calendars seen or nothing selected). Nothing is ever removed from the
/// selection.
pub fn unavailable_selection(selected: &Vec<String>, cals: &Vec<CalInfo>) -> (r: Option<u32>)
    ensures
        r == if cals@.len() == 0 || selected@.len() == 0 {
            None
        } else {
            Some(missing_count(selected@, cals@) as u32)
        },
{
    if cals.len() == 0 || selected.len() == 0 {
        return None;
    }
    let mut missing: usize = 0;
    let mut i: usize = 0;
    while i < selected.len()
        invariant
            i <= selected.len(),
            missing == missing_count(selected@.take(i as int), cals@),
            missing <= i,
        decreases selected.len() - i,
    {
        let mut found = false;
        let mut k: usize = 0;
        while k < cals.len()
            invariant
                k <= cals.len(),
                i < selected.len(),
                found == exists|m: int| 0 <= m < k && (#[trigger] cals@[m]).id@ == selected@[i as int]@,
            decreases cals.len() - k,
        {
            if same_text(cals[k].id.as_str(), selected[i].as_str()) {
                found = true;
            }
            k += 1;
        }
        assert(selected@.take(i + 1).drop_last() =~= selected@.take(i as int));
        if !found {
            missing += 1;
        }
        i += 1;
    }
    assert(selected@.take(selected.len() as int) =~= selected@);
    Some(missing as u32)
}

} // verus!

verus! {

/// What came back from a request to the service thread.
#[derive(Debug)]
pub enum Reply<T> {
    /// the service is not running, so the request could not be sent
    NotSent,
    /// no answer came within the time allowed
    TimedOut,
    Answer(T),
}

/// The outcome of asking for calendar access: granted only when the
/// service answered that it was.
pub fn request_access(reply: Reply<bool>) -> (granted: bool)
    ensures
        granted == (reply == Reply::Answer(true)),
{
    match reply {
        Reply::Answer(g) => g,
        _ => false,
    }
}

pub open spec fn timeout_text() -> Seq<char> {
    seq!['t', 'i', 'm', 'e', 'o', 'u', 't']
}

/// A read's result from the service: its answer, or the reason there is
/// none (the service is not running, or it did not answer in time).
pub fn read_answer<T>(reply: Reply<Result<T, String>>) -> (r: Result<T, String>)
    ensures
        match reply {
            Reply::Answer(a) => r == a,
            Reply::NotSent => r matches Err(e) && e@ == unavailable_text(),
            Reply::TimedOut => r matches Err(e) && e@ == timeout_text(),
        },
{
    match reply {
        Reply::Answer(a) => a,
        Reply::NotSent => Err(service_unavailable()),
        Reply::TimedOut => {
            proof {
                reveal_strlit("timeout");
            }
            Err("timeout".to_owned())
        },
    }
}

/// The calendars for the settings: the service's answer, or the reason
/// there is none (the service is not running, or it did not answer).
pub fn list_calendars(reply: Reply<Result<Vec<CalInfo>, String>>) -> (r: Result<Vec<CalInfo>, String>)
    ensures
        match reply {
            Reply::Answer(a) => r == a,
            Reply::NotSent => r matches Err(e) && e@ == unavailable_text(),
            Reply::TimedOut => r matches Err(e) && e@ == timeout_text(),
        },
{
    read_answer(reply)
}

/// The health snapshot for the UI: the service's answer, or the initial
/// snapshot with the current permission `status` when there is none.
pub fn health(reply: Reply<CalendarHealth>, status: String) -> (h: CalendarHealth)
    ensures
        match reply {
            Reply::Answer(a) => h == a,
            _ => h@ == fresh_service(status@).health,
        },
{
    match reply {
        Reply::Answer(a) => a,
        _ => CalendarHealth::initial(status),
    }
}

} // verus!

verus! {

/// A failed read is never passed off as an empty calendar: an empty list of
/// calendars is a success only in a process that has never seen one, and
/// once calendars were seen, their sudden absence is an outage; the same
/// holds for an empty event read while the store sees no calendars.
pub proof fn outage_never_reads_as_empty(s: ServiceView, status: Seq<char>, now: i64, found: bool)
    ensures
        list_first_spec(s, status, 0, now).1 == Some(Ok::<(), Seq<char>>(())) ==> s.max_cals_seen == 0,
        list_retry_spec(s, status, 0, now).1 is Ok ==> s.max_cals_seen == 0,
        s.max_cals_seen > 0 && !found ==> !(fetch_first_spec(s, status, found, 0, now).1 == Some(
            Ok::<(), Seq<char>>(()),
        )),
        fetch_retry_spec(s, status, 0, now).1 is Err,
        list_first_spec(s, status, 0, now).1 matches Some(Err(e)) ==> e == no_permission_text() || e
            == unavailable_text(),
{
}

} // verus!
