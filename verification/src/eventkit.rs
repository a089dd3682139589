//! What the library decides about the system calendar store: which
//! permission API to call, how statuses and calendar kinds are named, and
//! which of the store's events become flybys.

use vstd::prelude::*;
use crate::calendar::{
    sanitize_title, sanitized_title, sort_by_start, sorting_keeps_every_event, sorted_by_start, CalEvent, CalInfo, ordered_by_start,
};
use crate::scheduler::contains_string;
use crate::scheduler::keys_view;

verus! {

/// Which permission request the store offers.
#[derive(Debug, Clone, Copy, PartialEq, Eq, Structural)]
pub enum CalendarAccessApi {
    /// macOS 12 and 13: access to the event entity type
    LegacyAccess,
    /// macOS 14 and later: full access to events
    FullAccess,
}

/// The full-access request when the store answers to its selector, else
/// the older one.
pub fn calendar_access_api(full_access_selector_available: bool) -> (api: CalendarAccessApi)
    ensures
        api == if full_access_selector_available {
            CalendarAccessApi::FullAccess
        } else {
            CalendarAccessApi::LegacyAccess
        },
{
    if full_access_selector_available {
        CalendarAccessApi::FullAccess
    } else {
        CalendarAccessApi::LegacyAccess
    }
}

/// The store's authorization status for events.
#[derive(Debug, Clone, Copy, PartialEq, Eq, Structural)]
pub enum AuthorizationStatus {
    NotDetermined,
    Restricted,
    Denied,
    /// full access; the status called "authorized" before macOS 14
    FullAccess,
    WriteOnly,
    /// a value this library does not know
    Other,
}

pub open spec fn status_text(s: AuthorizationStatus) -> Seq<char> {
    match s {
        AuthorizationStatus::NotDetermined => "notDetermined"@,
        AuthorizationStatus::Restricted => "restricted"@,
        AuthorizationStatus::Denied => "denied"@,
        AuthorizationStatus::FullAccess => "authorized"@,
        AuthorizationStatus::WriteOnly => "writeOnly"@,
        AuthorizationStatus::Other => "unknown"@,
    }
}

/// The status as the settings window and the tray name it.
pub fn authorization_text(s: AuthorizationStatus) -> (r: &'static str)
    ensures
        r@ == status_text(s),
{
    match s {
        AuthorizationStatus::NotDetermined => "notDetermined",
        AuthorizationStatus::Restricted => "restricted",
        AuthorizationStatus::Denied => "denied",
        AuthorizationStatus::FullAccess => "authorized",
        AuthorizationStatus::WriteOnly => "writeOnly",
        AuthorizationStatus::Other => "unknown",
    }
}

/// Calendar type codes of the store: local 0, CalDAV 1, Exchange 2,
/// subscription 3, birthday 4.
pub const SUBSCRIPTION_CALENDAR: isize = 3;
pub const BIRTHDAY_CALENDAR: isize = 4;

pub open spec fn kind_text(type_code: isize) -> Seq<char> {
    if type_code == BIRTHDAY_CALENDAR {
        "birthday"@
    } else if type_code == SUBSCRIPTION_CALENDAR {
        "subscription"@
    } else {
        "normal"@
    }
}

/// The kind the settings window uses to leave birthdays and subscribed
/// holiday calendars unticked by default.
pub fn calendar_kind(type_code: isize) -> (r: &'static str)
    ensures
        r@ == kind_text(type_code),
{
    if type_code == BIRTHDAY_CALENDAR {
        "birthday"
    } else if type_code == SUBSCRIPTION_CALENDAR {
        "subscription"
    } else {
        "normal"
    }
}

/// A calendar for the settings: its id, its cleaned title, its kind.
pub fn cal_info(id: String, raw_title: &str, type_code: isize) -> (c: CalInfo)
    ensures
        c.id == id,
        c.title@ == sanitized_title(raw_title@),
        c.kind@ == kind_text(type_code),
{
    CalInfo { id, title: sanitize_title(raw_title), kind: calendar_kind(type_code).to_owned() }
}

/// An attendee of a store event, as far as the filter reads it.
#[derive(Debug, Clone, Copy)]
pub struct Attendee {
    pub is_current_user: bool,
    /// participant status code; 3 is declined
    pub status: isize,
}

pub const DECLINED: isize = 3;

/// Some attendee of `a` is me, and declined.
pub open spec fn declined_in(a: Seq<Attendee>) -> bool {
    exists|i: int| 0 <= i < a.len() && (#[trigger] a[i]).is_current_user && a[i].status == DECLINED
}

pub open spec fn declined_spec(attendees: Option<Seq<Attendee>>) -> bool {
    match attendees {
        Some(a) => declined_in(a),
        None => false,
    }
}

/// Did I decline this invitation? Meetings without invitees have no
/// attendee list and are never filtered.
pub fn declined_by_me(attendees: &Option<Vec<Attendee>>) -> (b: bool)
    ensures
        b == declined_spec(
            match attendees {
                Some(a) => Some(a@),
                None => None,
            },
        ),
{
    match attendees {
        None => false,
        Some(a) => {
            let mut i: usize = 0;
            while i < a.len()
                invariant
                    i <= a.len(),
                    *attendees matches Some(x) && x@ == a@,
                    forall|k: int| 0 <= k < i ==> !((#[trigger] a@[k]).is_current_user && a@[k].status == DECLINED),
                decreases a.len() - i,
            {
                if a[i].is_current_user && a[i].status == DECLINED {
                    assert((a@[i as int]).is_current_user && a@[i as int].status == DECLINED);
                    assert(declined_in(a@));
                    return true;
                }
                i += 1;
            }
            false
        },
    }
}

/// A store calendar as the filter reads it.
#[derive(Debug, Clone)]
pub struct StoreCalendar {
    pub id: String,
    pub type_code: isize,
}

/// A store event in the coming hours, as the filter reads it.
#[derive(Debug, Clone)]
pub struct StoreEvent {
    pub all_day: bool,
    /// event status code; 3 is cancelled by the organizer
    pub status: isize,
    pub declined_by_me: bool,
    pub calendar: Option<StoreCalendar>,
    /// unix seconds of the start, `None` when the store gave none
    pub start: Option<i64>,
    pub title: String,
    pub id: Option<String>,
    pub external_id: Option<String>,
    pub occurrence: Option<i64>,
}

pub const CANCELLED: isize = 3;

/// Most events handed on from one read.
pub const MAX_STORE_EVENTS: usize = 500;

/// `ids` holds `id`.
pub open spec fn picked(ids: Seq<Seq<char>>, id: Seq<char>) -> bool {
    ids.contains(id)
}

/// Does event `e` fly? Not all-day, not cancelled, not declined, in a
/// calendar, with a start; with no calendars picked every calendar but
/// subscriptions and birthdays counts, else only the picked ones.
pub open spec fn store_event_kept(e: StoreEvent, ids: Seq<Seq<char>>) -> bool {
    &&& !e.all_day
    &&& e.status != CANCELLED
    &&& !e.declined_by_me
    &&& e.start is Some
    &&& match e.calendar {
        Some(c) => if ids.len() == 0 {
            c.type_code != SUBSCRIPTION_CALENDAR && c.type_code != BIRTHDAY_CALENDAR
        } else {
            picked(ids, c.id@)
        },
        None => false,
    }
}

/// The kept store events, in order (titles still raw).
pub open spec fn kept_store_events(s: Seq<StoreEvent>, ids: Seq<Seq<char>>) -> Seq<StoreEvent>
    decreases s.len(),
{
    if s.len() == 0 {
        s
    } else if store_event_kept(s.last(), ids) {
        kept_store_events(s.drop_last(), ids).push(s.last())
    } else {
        kept_store_events(s.drop_last(), ids)
    }
}

pub open spec fn ids_view(v: Seq<String>) -> Seq<Seq<char>> {
    keys_view(v)
}

/// `e` is the flyby event made from the kept store event `s`: its id (empty
/// when the store gave none), start, calendar, stable id (the external id,
/// else the id), occurrence (else the start) and cleaned title.
pub open spec fn made_from(e: CalEvent, s: StoreEvent) -> bool {
    let id = match s.id {
        Some(i) => i@,
        None => Seq::<char>::empty(),
    };
    &&& e.id@ == id
    &&& e.start == s.start->0
    &&& e.calendar_id@ == s.calendar->0.id@
    &&& e.stable_id@ == match s.external_id {
        Some(x) => x@,
        None => id,
    }
    &&& e.occurrence == match s.occurrence {
        Some(o) => o,
        None => s.start->0,
    }
    &&& e.title@ == sanitized_title(s.title@)
}

/// The events made from the kept store events, before sorting.
pub open spec fn made_events(kept: Seq<StoreEvent>, made: Seq<CalEvent>) -> bool {
    &&& made.len() == kept.len()
    &&& forall|i: int| 0 <= i < kept.len() ==> made_from(#[trigger] made[i], kept[i])
}

/// A store event a flyby may be made of: timed, not cancelled, not
/// declined, with a start, in a calendar that, with no calendars picked,
/// is neither a subscription nor a birthday calendar, and otherwise is
/// one of the picked ones.
pub open spec fn may_fly(e: StoreEvent, ids: Seq<Seq<char>>) -> bool {
    &&& !e.all_day
    &&& e.status != CANCELLED
    &&& !e.declined_by_me
    &&& e.start is Some
    &&& e.calendar matches Some(c)
    &&& ids.len() == 0 ==> c.type_code != SUBSCRIPTION_CALENDAR && c.type_code != BIRTHDAY_CALENDAR
    &&& ids.len() > 0 ==> ids.contains(c.id@)
}

proof fn lemma_kept_from(s: Seq<StoreEvent>, ids: Seq<Seq<char>>)
    ensures
        forall|i: int| 0 <= i < kept_store_events(s, ids).len() ==> exists|j: int|
            0 <= j < s.len() && #[trigger] kept_store_events(s, ids)[i] == s[j] && may_fly(s[j], ids),
    decreases s.len(),
{
    if s.len() > 0 {
        lemma_kept_from(s.drop_last(), ids);
        let k0 = kept_store_events(s.drop_last(), ids);
        let k = kept_store_events(s, ids);
        assert forall|i: int| 0 <= i < k.len() implies exists|j: int|
            0 <= j < s.len() && #[trigger] k[i] == s[j] && may_fly(s[j], ids) by {
            if i < k0.len() {
                assert(k[i] == k0[i]);
                let j = choose|j: int| 0 <= j < s.drop_last().len() && k0[i] == s.drop_last()[j] && may_fly(
                    s.drop_last()[j],
                    ids,
                );
                assert(s[j] == s.drop_last()[j]);
            } else {
                assert(k[i] == s[s.len() - 1]);
            }
        }
    }
}

/// Every flyby made from a read of the store comes from an event that may
/// fly: in particular, with no calendars picked, no event of a
/// subscription or birthday calendar ever becomes a flyby.
pub proof fn flybys_come_from_events_that_may_fly(events: Seq<StoreEvent>, ids: Seq<Seq<char>>, made: Seq<CalEvent>)
    requires
        made_events(kept_store_events(events, ids), made),
    ensures
        forall|i: int| 0 <= i < made.len() ==> exists|j: int|
            0 <= j < events.len() && made_from(#[trigger] made[i], events[j]) && may_fly(events[j], ids),
{
    lemma_kept_from(events, ids);
    let k = kept_store_events(events, ids);
    assert forall|i: int| 0 <= i < made.len() implies exists|j: int|
        0 <= j < events.len() && made_from(#[trigger] made[i], events[j]) && may_fly(events[j], ids) by {
        assert(made_from(made[i], k[i]));
        let j = choose|j: int| 0 <= j < events.len() && k[i] == events[j] && may_fly(events[j], ids);
    }
}

fn event_of(e: &StoreEvent) -> (r: CalEvent)
    requires
        e.start is Some,
        e.calendar is Some,
    ensures
        made_from(r, *e),
{
    let id: String = match &e.id {
        Some(i) => i.clone(),
        None => String::new(),
    };
    proof {
        reveal_strlit("");
    }
    let start = match e.start {
        Some(s) => s,
        None => 0,
    };
    let calendar_id = match &e.calendar {
        Some(c) => c.id.clone(),
        None => String::new(),
    };
    let stable_id = match &e.external_id {
        Some(x) => x.clone(),
        None => id.clone(),
    };
    let occurrence = match e.occurrence {
        Some(o) => o,
        None => start,
    };
    CalEvent { id, title: sanitize_title(e.title.as_str()), start, calendar_id, stable_id, occurrence }
}

/// The flybys from one read of the store: the kept events with cleaned
/// titles, sorted by start, at most 500.
pub fn events_from_store(events: &Vec<StoreEvent>, calendar_ids: &Vec<String>) -> (r: Vec<CalEvent>)
    ensures
        exists|made: Seq<CalEvent>|
            {
                &&& made_events(kept_store_events(events@, ids_view(calendar_ids@)), made)
                &&& r@ == {
                    let s = sorted_by_start(made);
                    if s.len() <= MAX_STORE_EVENTS { s } else { s.take(MAX_STORE_EVENTS as int) }
                }
            },
        ordered_by_start(r@),
        r@.len() <= MAX_STORE_EVENTS,
        forall|k: int| 0 <= k < r@.len() ==> exists|j: int|
            0 <= j < events@.len() && made_from(#[trigger] r@[k], events@[j]) && may_fly(
                events@[j],
                ids_view(calendar_ids@),
            ),
{
    let ghost ids = ids_view(calendar_ids@);
    let mut made: Vec<CalEvent> = Vec::new();
    let mut i: usize = 0;
    assert(events@.take(0) =~= Seq::<StoreEvent>::empty());
    while i < events.len()
        invariant
            i <= events.len(),
            ids == ids_view(calendar_ids@),
            made_events(kept_store_events(events@.take(i as int), ids), made@),
        decreases events.len() - i,
    {
        let e = &events[i];
        proof {
            assert(events@.take(i + 1).drop_last() =~= events@.take(i as int));
            assert(events@.take(i + 1).last() == *e);
        }
        let keep = if e.all_day || e.status == CANCELLED || e.declined_by_me || e.start.is_none() {
            false
        } else {
            match &e.calendar {
                Some(c) => if calendar_ids.len() == 0 {
                    c.type_code != SUBSCRIPTION_CALENDAR && c.type_code != BIRTHDAY_CALENDAR
                } else {
                    contains_string(calendar_ids, &c.id)
                },
                None => false,
            }
        };
        assert(keep == store_event_kept(*e, ids));
        if keep {
            let ev = event_of(e);
            let ghost before = made@;
            made.push(ev);
            assert forall|k: int| 0 <= k < made@.len() implies made_from(
                #[trigger] made@[k],
                kept_store_events(events@.take(i + 1), ids)[k],
            ) by {
                if k < before.len() {
                    assert(made@[k] == before[k]);
                }
            }
        }
        i += 1;
    }
    assert(events@.take(events.len() as int) =~= events@);
    let ghost made_view = made@;
    let sorted = sort_by_start(made);
    let mut out = sorted;
    let ghost s = out@;
    if out.len() > MAX_STORE_EVENTS {
        out.truncate(MAX_STORE_EVENTS);
        assert(out@ =~= s.take(MAX_STORE_EVENTS as int));
    }
    proof {
        broadcast use vstd::seq_lib::group_to_multiset_ensures;
        flybys_come_from_events_that_may_fly(events@, ids, made_view);
        sorting_keeps_every_event(made_view);
        assert forall|k: int| 0 <= k < out@.len() implies exists|j: int|
            0 <= j < events@.len() && made_from(#[trigger] out@[k], events@[j]) && may_fly(events@[j], ids) by {
            assert(out@[k] == s[k]);
            assert(s.contains(s[k]));
            assert(s.to_multiset().count(s[k]) > 0);
            assert(made_view.contains(s[k]));
            let m = choose|m: int| 0 <= m < made_view.len() && made_view[m] == s[k];
        }
    }
    assert(ordered_by_start(out@)) by {
        assert forall|a: int, b: int| 0 <= a < b < out@.len() implies out@[a].start <= out@[b].start by {
            assert(out@[a] == s[a] && out@[b] == s[b]);
        }
    }
    out
}

} // verus!
