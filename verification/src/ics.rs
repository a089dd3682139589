//! The iCal feed: the calendars read from the feed's bytes, the fields of
//! each event, its start, the expansion of repeating events into the
//! window, and the events handed to the scheduler.

use vstd::prelude::*;
use crate::calendar::{
    sanitize_title, sanitized_title, sort_by_start, sorted_by_start, sorting_keeps_every_event, ordered_by_start, CalEvent,
    CalEventView,
};
use crate::text::{
    chars_of, concat_chars, decimal, decimal_chars, has_prefix, occurs_at_exec, occurs_at, same_text, string_of, trim,
    trim_chars,
};

verus! {

/// A property line of a feed event: its name and value.
#[derive(Debug)]
pub struct IcsProperty {
    pub name: String,
    pub value: Option<String>,
}

/// An event of a feed, as its property lines.
#[derive(Debug)]
pub struct IcsEvent {
    pub properties: Vec<IcsProperty>,
}

/// A property as plain values.
pub open spec fn property_view(p: IcsProperty) -> (Seq<char>, Option<Seq<char>>) {
    (
        p.name@,
        match p.value {
            Some(v) => Some(v@),
            None => None,
        },
    )
}

/// An event as plain values.
pub open spec fn event_view(e: IcsEvent) -> Seq<(Seq<char>, Option<Seq<char>>)> {
    e.properties@.map_values(|p: IcsProperty| property_view(p))
}

/// The calendars read from a feed as plain values: `None` for a calendar
/// the reader rejected.
pub open spec fn calendars_view(v: Seq<Option<Vec<IcsEvent>>>) -> Seq<Option<Seq<Seq<(Seq<char>, Option<Seq<char>>)>>>> {
    v.map_values(
        |c: Option<Vec<IcsEvent>>|
            match c {
                Some(evs) => Some(evs@.map_values(|e: IcsEvent| event_view(e))),
                None => None,
            },
    )
}

/// The calendars the `ical` crate reads from the bytes `body`, each with
/// the property lines of its events.
pub uninterp spec fn ical_calendars(body: Seq<u8>) -> Seq<Option<Seq<Seq<(Seq<char>, Option<Seq<char>>)>>>>;

/// Runs `ical::IcalParser` over `body` and hands out, for every calendar it
/// yields, the names and values of the properties of its events (`None`
/// where it yields an error). The contract claims only that the result is
/// a function of the bytes.
#[verifier::external_body]
fn read_calendars(body: &[u8]) -> (r: Vec<Option<Vec<IcsEvent>>>)
    ensures
        calendars_view(r@) == ical_calendars(body@),
{
    ical::IcalParser::new(std::io::BufReader::new(body))
        .map(|cal| cal.ok().map(|c| c.events.into_iter()
            .map(|e| IcsEvent { properties: e.properties.into_iter()
                .map(|p| IcsProperty { name: p.name, value: p.value }).collect() })
            .collect()))
        .collect()
}

impl IcsProperty {
    pub fn copy_of(&self) -> (r: IcsProperty)
        ensures
            property_view(r) == property_view(*self),
    {
        IcsProperty {
            name: self.name.clone(),
            value: match &self.value {
                Some(v) => Some(v.clone()),
                None => None,
            },
        }
    }
}

impl IcsEvent {
    pub fn copy_of(&self) -> (r: IcsEvent)
        ensures
            event_view(r) == event_view(*self),
    {
        let mut props: Vec<IcsProperty> = Vec::new();
        let mut i: usize = 0;
        while i < self.properties.len()
            invariant
                i <= self.properties.len(),
                props@.len() == i,
                forall|k: int| 0 <= k < i ==> property_view(#[trigger] props@[k]) == property_view(self.properties@[k]),
            decreases self.properties.len() - i,
        {
            props.push(self.properties[i].copy_of());
            i += 1;
        }
        let r = IcsEvent { properties: props };
        assert(event_view(r) =~= event_view(*self));
        r
    }
}

/// The events of the readable calendars, in order.
pub open spec fn flat_events(c: Seq<Option<Seq<Seq<(Seq<char>, Option<Seq<char>>)>>>>) -> Seq<Seq<(Seq<char>, Option<Seq<char>>)>>
    decreases c.len(),
{
    if c.len() == 0 {
        Seq::empty()
    } else {
        flat_events(c.drop_last()) + match c.last() {
            Some(evs) => evs,
            None => Seq::empty(),
        }
    }
}

fn flatten(cals: &Vec<Option<Vec<IcsEvent>>>) -> (r: Vec<IcsEvent>)
    ensures
        r@.map_values(|e: IcsEvent| event_view(e)) == flat_events(calendars_view(cals@)),
{
    let ghost cv = calendars_view(cals@);
    let mut r: Vec<IcsEvent> = Vec::new();
    let mut i: usize = 0;
    assert(cv.take(0) =~= Seq::<Option<Seq<Seq<(Seq<char>, Option<Seq<char>>)>>>>::empty());
    while i < cals.len()
        invariant
            i <= cals.len(),
            cv == calendars_view(cals@),
            cv.len() == cals@.len(),
            r@.map_values(|e: IcsEvent| event_view(e)) == flat_events(cv.take(i as int)),
        decreases cals.len() - i,
    {
        proof {
            assert(cv.take(i + 1).drop_last() =~= cv.take(i as int));
        }
        match &cals[i] {
            Some(evs) => {
                let ghost before = r@.map_values(|e: IcsEvent| event_view(e));
                let ghost ev = evs@.map_values(|e: IcsEvent| event_view(e));
                assert(cv[i as int] == Some(ev));
                let mut k: usize = 0;
                while k < evs.len()
                    invariant
                        k <= evs.len(),
                        ev == evs@.map_values(|e: IcsEvent| event_view(e)),
                        r@.map_values(|e: IcsEvent| event_view(e)) == before + ev.take(k as int),
                    decreases evs.len() - k,
                {
                    let c = evs[k].copy_of();
                    let ghost r0 = r@;
                    r.push(c);
                    assert(r@.map_values(|e: IcsEvent| event_view(e)) =~= r0.map_values(|e: IcsEvent| event_view(e)).push(
                        event_view(c),
                    ));
                    k += 1;
                    assert(r@.map_values(|e: IcsEvent| event_view(e)) =~= before + ev.take(k as int));
                }
                assert(ev.take(evs.len() as int) =~= ev);
            },
            None => {
                assert(r@.map_values(|e: IcsEvent| event_view(e)) =~= flat_events(cv.take(i as int))
                    + Seq::<Seq<(Seq<char>, Option<Seq<char>>)>>::empty());
            },
        }
        i += 1;
    }
    assert(cv.take(cals.len() as int) =~= cv);
    r
}

} // verus!

verus! {

/// `s.replace(pat, rep)`: every occurrence of `pat`, from left to right and
/// not overlapping, becomes `rep`.
pub open spec fn replaced(s: Seq<char>, pat: Seq<char>, rep: Seq<char>) -> Seq<char>
    decreases s.len(),
{
    if s.len() == 0 || pat.len() == 0 {
        s
    } else if has_prefix(s, pat) {
        rep + replaced(s.skip(pat.len() as int), pat, rep)
    } else {
        seq![s[0]] + replaced(s.skip(1), pat, rep)
    }
}

/// `str::replace` for a non-empty pattern.
pub fn replace_all(s: &Vec<char>, pat: &Vec<char>, rep: &Vec<char>) -> (r: Vec<char>)
    requires
        pat@.len() > 0,
    ensures
        r@ == replaced(s@, pat@, rep@),
{
    let mut out: Vec<char> = Vec::new();
    let mut i: usize = 0;
    assert(s@.skip(0) =~= s@);
    assert(out@ + replaced(s@, pat@, rep@) =~= replaced(s@, pat@, rep@));
    while i < s.len()
        invariant
            i <= s.len(),
            pat@.len() > 0,
            out@ + replaced(s@.skip(i as int), pat@, rep@) == replaced(s@, pat@, rep@),
        decreases s.len() - i,
    {
        let ghost t = s@.skip(i as int);
        if pat.len() <= s.len() - i && occurs_at_exec(s, pat, i) {
            proof {
                assert(t.take(pat@.len() as int) =~= s@.subrange(i as int, i + pat@.len()));
                assert(t.skip(pat@.len() as int) =~= s@.skip(i + pat@.len()));
            }
            let ghost o = out@;
            out = concat_chars(&out, rep);
            assert(out@ + replaced(s@.skip(i + pat@.len()), pat@, rep@) =~= o + (rep@ + replaced(
                t.skip(pat@.len() as int),
                pat@,
                rep@,
            )));
            i += pat.len();
        } else {
            proof {
                if has_prefix(t, pat@) {
                    assert(s@.subrange(i as int, i + pat@.len()) =~= t.take(pat@.len() as int));
                }
                assert(t.skip(1) =~= s@.skip(i + 1));
            }
            let ghost o = out@;
            out.push(s[i]);
            assert(out@ + replaced(s@.skip(i + 1), pat@, rep@) =~= o + (seq![t[0]] + replaced(t.skip(1), pat@, rep@)));
            i += 1;
        }
    }
    assert(s@.skip(s.len() as int) =~= Seq::<char>::empty());
    assert(out@ + Seq::<char>::empty() =~= out@);
    out
}

} // verus!

verus! {

/// What the ICS escape `\c` stands for: newlines read as spaces, and
/// `\,`, `\;`, `\\` as the character escaped; `None` for any other `c`.
pub open spec fn escaped_char(c: char) -> Option<char> {
    if c == 'n' || c == 'N' {
        Some(' ')
    } else if c == ',' || c == ';' || c == '\\' {
        Some(c)
    } else {
        None
    }
}

/// ICS text with each escape decoded once, left to right; a backslash that
/// starts no escape stays as it is.
pub open spec fn unescaped(s: Seq<char>) -> Seq<char>
    decreases s.len(),
{
    if s.len() == 0 {
        s
    } else if s.len() >= 2 && s[0] == '\\' && escaped_char(s[1]) is Some {
        seq![escaped_char(s[1])->0] + unescaped(s.skip(2))
    } else {
        seq![s[0]] + unescaped(s.skip(1))
    }
}

fn escaped_char_exec(c: char) -> (r: Option<char>)
    ensures
        r == escaped_char(c),
{
    if c == 'n' || c == 'N' {
        Some(' ')
    } else if c == ',' || c == ';' || c == '\\' {
        Some(c)
    } else {
        None
    }
}

/// Undoes the ICS text escapes in one pass; the result is then cleaned
/// like any title.
pub fn unescape_ics(s: &str) -> (r: String)
    ensures
        r@ == unescaped(s@),
{
    let v = chars_of(s);
    let mut out: Vec<char> = Vec::new();
    let mut i: usize = 0;
    assert(v@.skip(0) =~= v@);
    while i < v.len()
        invariant
            i <= v.len(),
            v@ == s@,
            out@ + unescaped(v@.skip(i as int)) == unescaped(v@),
        decreases v.len() - i,
    {
        let ghost t = v@.skip(i as int);
        let ghost o = out@;
        let mut step: usize = 1;
        let mut decoded: Option<char> = None;
        if v[i] == '\\' && i + 1 < v.len() {
            decoded = escaped_char_exec(v[i + 1]);
        }
        match decoded {
            Some(c) => {
                assert(t[1] == v@[i + 1]);
                assert(t.skip(2) =~= v@.skip(i + 2));
                out.push(c);
                step = 2;
            },
            None => {
                assert(t.skip(1) =~= v@.skip(i + 1));
                out.push(v[i]);
            },
        }
        assert(out@ + unescaped(v@.skip(i + step)) =~= o + unescaped(t));
        i += step;
    }
    assert(v@.skip(v.len() as int) =~= Seq::<char>::empty());
    assert(out@ + Seq::<char>::empty() =~= out@);
    string_of(&out)
}

/// The fields of a feed event the library reads.
pub struct FieldsView {
    pub summary: Seq<char>,
    pub uid: Seq<char>,
    pub rrule: Option<Seq<char>>,
    pub cancelled: bool,
    /// the value of the last DTSTART line
    pub dtstart: Option<Seq<char>>,
}

/// `v` is "CANCELLED" in any ASCII case (`eq_ignore_ascii_case`).
pub open spec fn is_cancelled_text(v: Seq<char>) -> bool {
    &&& v.len() == 9
    &&& forall|i: int| 0 <= i < 9 ==> #[trigger] v[i] == "CANCELLED"@[i] || v[i] == "cancelled"@[i]
}

pub open spec fn value_or_empty(v: Option<Seq<char>>) -> Seq<char> {
    match v {
        Some(x) => x,
        None => Seq::empty(),
    }
}

/// The fields read from the property lines `props`; a later line of the
/// same name wins.
pub open spec fn fields_of(props: Seq<(Seq<char>, Option<Seq<char>>)>) -> FieldsView
    decreases props.len(),
{
    if props.len() == 0 {
        FieldsView { summary: Seq::empty(), uid: Seq::empty(), rrule: None, cancelled: false, dtstart: None }
    } else {
        let f = fields_of(props.drop_last());
        let name = props.last().0;
        let value = props.last().1;
        if name == "SUMMARY"@ {
            FieldsView { summary: value_or_empty(value), ..f }
        } else if name == "UID"@ {
            FieldsView { uid: value_or_empty(value), ..f }
        } else if name == "RRULE"@ {
            FieldsView { rrule: value, ..f }
        } else if name == "STATUS"@ {
            FieldsView { cancelled: value matches Some(x) && is_cancelled_text(x), ..f }
        } else if name == "DTSTART"@ {
            FieldsView { dtstart: value, ..f }
        } else {
            f
        }
    }
}

/// The fields of a feed event.
pub struct EventFields {
    pub summary: String,
    pub uid: String,
    pub rrule: Option<String>,
    pub cancelled: bool,
    pub dtstart: Option<String>,
}

pub open spec fn opt_view(v: Option<String>) -> Option<Seq<char>> {
    match v {
        Some(x) => Some(x@),
        None => None,
    }
}

pub open spec fn fields_view(f: EventFields) -> FieldsView {
    FieldsView {
        summary: f.summary@,
        uid: f.uid@,
        rrule: opt_view(f.rrule),
        cancelled: f.cancelled,
        dtstart: opt_view(f.dtstart),
    }
}

fn copy_opt(v: &Option<String>) -> (r: Option<String>)
    ensures
        opt_view(r) == opt_view(*v),
{
    match v {
        Some(x) => Some(x.clone()),
        None => None,
    }
}

fn cancelled_text(v: &String) -> (b: bool)
    ensures
        b == is_cancelled_text(v@),
{
    proof {
        reveal_strlit("CANCELLED");
        reveal_strlit("cancelled");
    }
    let cs = chars_of(v.as_str());
    let up = chars_of("CANCELLED");
    let low = chars_of("cancelled");
    if cs.len() != 9 {
        return false;
    }
    let mut i: usize = 0;
    while i < 9
        invariant
            i <= 9,
            cs@ == v@,
            cs@.len() == 9,
            up@ == "CANCELLED"@,
            low@ == "cancelled"@,
            up@.len() == 9,
            low@.len() == 9,
            forall|k: int| 0 <= k < i ==> #[trigger] cs@[k] == up@[k] || cs@[k] == low@[k],
        decreases 9 - i,
    {
        if cs[i] != up[i] && cs[i] != low[i] {
            return false;
        }
        i += 1;
    }
    true
}

/// Reads the fields of `ev`, a later line of the same name winning.
pub fn event_fields(ev: &IcsEvent) -> (f: EventFields)
    ensures
        fields_view(f) == fields_of(event_view(*ev)),
{
    let ghost props = event_view(*ev);
    let mut f = EventFields {
        summary: String::new(),
        uid: String::new(),
        rrule: None,
        cancelled: false,
        dtstart: None,
    };
    assert(props.take(0) =~= Seq::<(Seq<char>, Option<Seq<char>>)>::empty());
    let mut i: usize = 0;
    while i < ev.properties.len()
        invariant
            i <= ev.properties.len(),
            props == event_view(*ev),
            props.len() == ev.properties@.len(),
            fields_view(f) == fields_of(props.take(i as int)),
        decreases ev.properties.len() - i,
    {
        let p = &ev.properties[i];
        proof {
            assert(props.take(i + 1).drop_last() =~= props.take(i as int));
            assert(props.take(i + 1).last() == property_view(*p));
        }
        let name = p.name.as_str();
        let value: Option<String> = copy_opt(&p.value);
        if same_text(name, "SUMMARY") {
            f.summary = match value {
                Some(x) => x,
                None => String::new(),
            };
        } else if same_text(name, "UID") {
            f.uid = match value {
                Some(x) => x,
                None => String::new(),
            };
        } else if same_text(name, "RRULE") {
            f.rrule = value;
        } else if same_text(name, "STATUS") {
            f.cancelled = match &value {
                Some(x) => cancelled_text(x),
                None => false,
            };
        } else if same_text(name, "DTSTART") {
            f.dtstart = value;
        }
        i += 1;
    }
    assert(props.take(ev.properties.len() as int) =~= props);
    f
}

} // verus!

verus! {

pub open spec fn is_ascii_digit(c: char) -> bool {
    '0' <= c && c <= '9'
}

/// An all-day start: exactly eight digits, `YYYYMMDD`.
pub open spec fn is_all_day(t: Seq<char>) -> bool {
    t.len() == 8 && forall|i: int| 0 <= i < 8 ==> is_ascii_digit(#[trigger] t[i])
}

/// A UTC start ends in `Z`.
pub open spec fn is_utc(t: Seq<char>) -> bool {
    t.len() > 0 && t.last() == 'Z'
}

/// The date-time layout of DTSTART values, `YYYYMMDDTHHMMSS`.
pub open spec fn date_time_format() -> Seq<char> {
    "%Y%m%dT%H%M%S"@
}

/// The time of day an all-day event is reminded at, 9:00, as it is
/// appended to the date to read it in the DTSTART layout.
pub open spec fn all_day_time() -> Seq<char> {
    "T090000"@
}

/// What `chrono` reads from `text` in the layout `format` as a UTC date
/// and time, in unix seconds; `None` when it does not parse.
pub uninterp spec fn chrono_utc_seconds(text: Seq<char>, format: Seq<char>) -> Option<i64>;

/// `chrono::NaiveDateTime::parse_from_str(text, format)` taken as UTC
/// (`and_utc().timestamp()`). The contract claims only that the result is
/// a function of the two texts.
#[verifier::external_body]
fn utc_seconds(text: &str, format: &str) -> (r: Option<i64>)
    ensures
        r == chrono_utc_seconds(text@, format@),
{
    match chrono::NaiveDateTime::parse_from_str(text, format) {
        Ok(dt) => Some(dt.and_utc().timestamp()),
        Err(_) => None,
    }
}

/// `chrono::NaiveDateTime::parse_from_str(text, format)` taken in the
/// machine's time zone (`and_local_timezone(Local)`, `single()`,
/// `timestamp()`). The instant depends on that time zone; the contract
/// claims only what holds in every zone: nothing comes back for a text the
/// same parse rejects, and the instant lies less than a day (the range of
/// a `FixedOffset`) from the text read as UTC.
#[verifier::external_body]
fn local_seconds(text: &str, format: &str) -> (r: Option<i64>)
    ensures
        chrono_utc_seconds(text@, format@) is None ==> r is None,
        r matches Some(t) ==> (chrono_utc_seconds(text@, format@) matches Some(u) && u - DAY_SECONDS < t < u
            + DAY_SECONDS),
{
    match chrono::NaiveDateTime::parse_from_str(text, format) {
        Ok(dt) => match dt.and_local_timezone(chrono::Local).single() {
            Some(t) => Some(t.timestamp()),
            None => None,
        },
        Err(_) => None,
    }
}

/// Seconds in a day, the bound of any time zone's offset.
pub const DAY_SECONDS: i64 = 86400;

/// What a start read from the DTSTART value `d` may be: none without a
/// value; for a UTC value, what `chrono` reads from it without the `Z`;
/// for an all-day date, none when it does not read as a date, else an
/// instant less than a day from 9:00 of that date taken as UTC; for a
/// local value, none when it does not read as a date and time, else an
/// instant less than a day from that reading taken as UTC. Local readings
/// depend on the machine's time zone, so only that bound is stated.
pub open spec fn start_ok(d: Option<Seq<char>>, r: Option<i64>) -> bool {
    match d {
        None => r is None,
        Some(v) => {
            let t = trim(v);
            if is_all_day(t) {
                &&& chrono_utc_seconds(t + all_day_time(), date_time_format()) is None ==> r is None
                &&& r matches Some(x) ==> (chrono_utc_seconds(t + all_day_time(), date_time_format()) matches Some(u)
                    && u - DAY_SECONDS < x < u + DAY_SECONDS)
            } else if is_utc(t) {
                r == chrono_utc_seconds(t.drop_last(), date_time_format())
            } else {
                &&& chrono_utc_seconds(t, date_time_format()) is None ==> r is None
                &&& r matches Some(x) ==> (chrono_utc_seconds(t, date_time_format()) matches Some(u) && u - DAY_SECONDS
                    < x < u + DAY_SECONDS)
            }
        },
    }
}

/// Reads the start of a feed event from its DTSTART value: an all-day
/// date is reminded at 9:00 local time, a value ending in `Z` is UTC, any
/// other is local time.
pub fn parse_dtstart(d: &Option<String>) -> (r: Option<i64>)
    ensures
        start_ok(opt_view(*d), r),
{
    let v = match d {
        Some(v) => v,
        None => return None,
    };
    proof {
        reveal_strlit("%Y%m%dT%H%M%S");
    }
    let t = trim_chars(&chars_of(v.as_str()));
    let n = t.len();
    if n == 8 {
        let mut all = true;
        let mut i: usize = 0;
        while i < 8
            invariant
                i <= 8,
                t@.len() == 8,
                all == forall|k: int| 0 <= k < i ==> is_ascii_digit(#[trigger] t@[k]),
            decreases 8 - i,
        {
            if !('0' <= t[i] && t[i] <= '9') {
                all = false;
            }
            i += 1;
        }
        if all {
            proof {
                reveal_strlit("T090000");
            }
            let text = string_of(&concat_chars(&t, &chars_of("T090000")));
            return local_seconds(text.as_str(), "%Y%m%dT%H%M%S");
        }
    }
    if n > 0 && t[n - 1] == 'Z' {
        let body = string_of(&crate::text::slice_chars(&t, 0, n - 1));
        assert(body@ =~= t@.drop_last());
        return utc_seconds(body.as_str(), "%Y%m%dT%H%M%S");
    }
    let text = string_of(&t);
    local_seconds(text.as_str(), "%Y%m%dT%H%M%S")
}

} // verus!

verus! {

/// The layout of the DTSTART line handed to the recurrence rules.
pub open spec fn stamp_format() -> Seq<char> {
    "%Y%m%dT%H%M%SZ"@
}

/// What `chrono` writes for the UTC instant `seconds` in the layout
/// `format`; `None` when the instant is out of its range.
pub uninterp spec fn chrono_utc_text(seconds: i64, format: Seq<char>) -> Option<Seq<char>>;

/// `chrono::Utc.timestamp_opt(seconds, 0).single()` formatted with
/// `format` (`format(..).to_string()`). Only the layout of DTSTART stamps
/// is admitted, a layout `chrono` formats without error. The contract
/// claims only that the result is a function of the arguments.
#[verifier::external_body]
fn utc_text(seconds: i64, format: &str) -> (r: Option<String>)
    requires
        format@ == stamp_format(),
    ensures
        opt_view(r) == chrono_utc_text(seconds, format@),
{
    match chrono::TimeZone::timestamp_opt(&chrono::Utc, seconds, 0).single() {
        Some(dt) => Some(dt.format(format).to_string()),
        None => None,
    }
}

/// `s` holds no line break.
pub open spec fn no_line_break(s: Seq<char>) -> bool {
    forall|i: int| 0 <= i < s.len() ==> s[i] != '\n' && s[i] != '\r'
}

/// `spec` is a rule text of exactly two lines: DTSTART with a UTC stamp,
/// and one RRULE line.
pub open spec fn single_rule_text(spec: Seq<char>) -> bool {
    exists|stamp: Seq<char>, rule: Seq<char>|
        is_utc(stamp) && no_line_break(stamp) && no_line_break(rule) && spec == #[trigger] rule_text(
            stamp,
            rule,
        )
}

/// The instants, in unix seconds, that the `rrule` crate yields for the
/// rule text `spec`, at most `limit` of them; `None` when the text does not
/// parse.
pub uninterp spec fn rrule_instants(spec: Seq<char>, limit: u16) -> Option<Seq<i64>>;

/// `spec.parse::<rrule::RRuleSet>()` then `all(limit)`, each date as unix
/// seconds. Only a text of one DTSTART line in UTC and one RRULE line is
/// admitted: there the crate reads every instant in UTC (an UNTIL without
/// `Z` fails its check against a UTC start, in any time zone), so the
/// result is a function of the text and the limit, which is all the
/// contract claims beyond the limit that `all` stops collecting at.
#[verifier::external_body]
fn rrule_dates(spec: &str, limit: u16) -> (r: Option<Vec<i64>>)
    requires
        single_rule_text(spec@),
    ensures
        match r {
            Some(d) => rrule_instants(spec@, limit) == Some(d@) && d@.len() <= limit,
            None => rrule_instants(spec@, limit) is None,
        },
{
    match spec.parse::<rrule::RRuleSet>() {
        Ok(set) => Some(set.all(limit).dates.iter().map(|d| d.timestamp()).collect()),
        Err(_) => None,
    }
}

/// Whether `v` holds a line break.
fn has_line_break(v: &Vec<char>) -> (b: bool)
    ensures
        b == !no_line_break(v@),
{
    let mut i: usize = 0;
    while i < v.len()
        invariant
            i <= v.len(),
            forall|k: int| 0 <= k < i ==> v@[k] != '\n' && v@[k] != '\r',
        decreases v.len() - i,
    {
        if v[i] == '\n' || v[i] == '\r' {
            return true;
        }
        i += 1;
    }
    false
}

/// Most instances a repeating event is expanded to (a guard against rule
/// bombs such as FREQ=SECONDLY;COUNT=999999999).
pub const MAX_INSTANCES: u16 = 100;

/// The instants of `ds` within `[from, to]`, in order.
pub open spec fn in_window(ds: Seq<i64>, from: i64, to: i64) -> Seq<i64>
    decreases ds.len(),
{
    if ds.len() == 0 {
        ds
    } else if from <= ds.last() && ds.last() <= to {
        in_window(ds.drop_last(), from, to).push(ds.last())
    } else {
        in_window(ds.drop_last(), from, to)
    }
}

/// The rule text for the recurrence crate: the start as a UTC stamp and
/// the trimmed rule.
pub open spec fn rule_text(stamp: Seq<char>, rule: Seq<char>) -> Seq<char> {
    "DTSTART:"@ + stamp + "\nRRULE:"@ + trim(rule)
}

/// The instances of the repeating event with rule `rule` starting at
/// `base` that fall within `[from, to]`, among the first `MAX_INSTANCES`
/// the rule yields; none when the rule is not understood or spans lines.
pub open spec fn expansion(rule: Seq<char>, base: i64, from: i64, to: i64) -> Seq<i64> {
    match chrono_utc_text(base, stamp_format()) {
        None => Seq::empty(),
        Some(stamp) => if !(is_utc(stamp) && no_line_break(stamp) && no_line_break(rule)) {
            Seq::empty()
        } else {
            match rrule_instants(rule_text(stamp, rule), MAX_INSTANCES) {
                None => Seq::empty(),
                Some(ds) => in_window(ds.take(min_len(ds.len(), MAX_INSTANCES as nat)), from, to),
            }
        },
    }
}

/// The smaller of two lengths.
pub open spec fn min_len(a: nat, b: nat) -> int {
    if a <= b {
        a as int
    } else {
        b as int
    }
}

pub proof fn lemma_in_window_len(ds: Seq<i64>, from: i64, to: i64)
    ensures
        in_window(ds, from, to).len() <= ds.len(),
    decreases ds.len(),
{
    if ds.len() > 0 {
        lemma_in_window_len(ds.drop_last(), from, to);
    }
}

/// A repeating event never yields more than `MAX_INSTANCES` instances,
/// whatever its rule.
pub proof fn expansion_is_capped(rule: Seq<char>, base: i64, from: i64, to: i64)
    ensures
        expansion(rule, base, from, to).len() <= MAX_INSTANCES,
{
    match chrono_utc_text(base, stamp_format()) {
        None => {},
        Some(stamp) => match rrule_instants(rule_text(stamp, rule), MAX_INSTANCES) {
            None => {},
            Some(ds) => {
                let n = min_len(ds.len(), MAX_INSTANCES as nat);
                lemma_in_window_len(ds.take(n), from, to);
            },
        },
    }
}

/// Expands a repeating event into its instances within `[from, to]`. A
/// rule spanning more than one line is not understood.
pub fn expand_rrule(rule: &str, dtstart: i64, from: i64, to: i64) -> (r: Vec<i64>)
    ensures
        r@ == expansion(rule@, dtstart, from, to),
        r@.len() <= MAX_INSTANCES,
{
    proof {
        reveal_strlit("%Y%m%dT%H%M%SZ");
        expansion_is_capped(rule@, dtstart, from, to);
    }
    let stamp = match utc_text(dtstart, "%Y%m%dT%H%M%SZ") {
        Some(s) => s,
        None => return Vec::new(),
    };
    let stamp_chars = chars_of(stamp.as_str());
    let rule_chars = chars_of(rule);
    let sl = stamp_chars.len();
    if sl == 0 || stamp_chars[sl - 1] != 'Z' || has_line_break(&stamp_chars) || has_line_break(&rule_chars) {
        return Vec::new();
    }
    let mut spec = chars_of("DTSTART:");
    spec = concat_chars(&spec, &stamp_chars);
    spec = concat_chars(&spec, &chars_of("\nRRULE:"));
    spec = concat_chars(&spec, &trim_chars(&rule_chars));
    let spec_text = string_of(&spec);
    assert(spec_text@ == rule_text(stamp@, rule@));
    let ds = match rrule_dates(spec_text.as_str(), MAX_INSTANCES) {
        Some(d) => d,
        None => return Vec::new(),
    };
    let n: usize = if ds.len() <= MAX_INSTANCES as usize { ds.len() } else { MAX_INSTANCES as usize };
    let mut out: Vec<i64> = Vec::new();
    let mut i: usize = 0;
    while i < n
        invariant
            i <= n,
            n <= ds.len(),
            out@ == in_window(ds@.take(i as int), from, to),
        decreases n - i,
    {
        proof {
            assert(ds@.take(i + 1).drop_last() =~= ds@.take(i as int));
        }
        if from <= ds[i] && ds[i] <= to {
            out.push(ds[i]);
        }
        i += 1;
    }
    out
}

} // verus!

verus! {

/// Most events read from one feed.
pub const MAX_EVENTS: usize = 500;

/// The id of a one-off feed event: "ics:" and its cleaned UID.
pub open spec fn feed_id(uid: Seq<char>) -> Seq<char> {
    "ics:"@ + sanitized_title(uid)
}

/// The id of one instance of a repeating feed event: "ics:", its cleaned
/// UID, ":" and the instance's start.
pub open spec fn instance_id(uid: Seq<char>, start: i64) -> Seq<char> {
    "ics:"@ + sanitized_title(uid) + ":"@ + decimal(start as int)
}

/// The title of a feed event: its summary unescaped and cleaned.
pub open spec fn feed_title(f: FieldsView) -> Seq<char> {
    sanitized_title(unescaped(f.summary))
}

/// `e` is one of the events the feed event with fields `f` yields: its
/// title is `f`'s unescaped, cleaned SUMMARY, and its id is `f`'s, of the
/// one-off event or of the instance starting when `e` does.
pub open spec fn comes_from(e: CalEventView, f: FieldsView) -> bool {
    &&& e.title == feed_title(f)
    &&& (e.id == feed_id(f.uid) || e.id == instance_id(f.uid, e.start))
}

/// A feed event as plain values.
pub open spec fn feed_event(id: Seq<char>, title: Seq<char>, start: i64) -> CalEventView {
    CalEventView { id: id, title: title, start: start, calendar_id: "ics"@, stable_id: id, occurrence: start }
}

pub open spec fn instance_events(f: FieldsView, ts: Seq<i64>) -> Seq<CalEventView> {
    ts.map_values(|t: i64| feed_event(instance_id(f.uid, t), feed_title(f), t))
}

/// The events a feed event with fields `f` and start `start` yields for the
/// window `[now, until]`: a repeating event its instances in the window
/// (whatever its status), a cancelled one-off event nothing, any other its
/// start when in the window. Without a start, nothing.
pub open spec fn pushes_of(f: FieldsView, start: Option<i64>, now: i64, until: i64) -> Seq<CalEventView> {
    match f.rrule {
        Some(rule) => match start {
            None => Seq::empty(),
            Some(base) => instance_events(f, expansion(rule, base, now, until)),
        },
        None => if f.cancelled {
            Seq::empty()
        } else {
            match start {
                None => Seq::empty(),
                Some(s) => if s < now || s > until {
                    Seq::empty()
                } else {
                    seq![feed_event(feed_id(f.uid), feed_title(f), s)]
                },
            }
        },
    }
}

/// At most the first 500 of `s`.
pub open spec fn capped(s: Seq<CalEventView>) -> Seq<CalEventView> {
    if s.len() <= MAX_EVENTS {
        s
    } else {
        s.take(MAX_EVENTS as int)
    }
}

/// The events of a whole feed, in feed order, at most 500: the events of
/// `fs` with starts `starts`.
pub open spec fn feed_pushes(fs: Seq<FieldsView>, starts: Seq<Option<i64>>, now: i64, until: i64) -> Seq<CalEventView>
    decreases fs.len(),
{
    if fs.len() == 0 || starts.len() != fs.len() {
        Seq::empty()
    } else {
        capped(feed_pushes(fs.drop_last(), starts.drop_last(), now, until) + pushes_of(fs.last(), starts.last(), now, until))
    }
}

pub open spec fn views(s: Seq<CalEvent>) -> Seq<CalEventView> {
    s.map_values(|e: CalEvent| e@)
}

/// The fields of every event of the readable calendars, in order.
pub open spec fn feed_fields(c: Seq<Option<Seq<Seq<(Seq<char>, Option<Seq<char>>)>>>>) -> Seq<FieldsView> {
    flat_events(c).map_values(|e: Seq<(Seq<char>, Option<Seq<char>>)>| fields_of(e))
}

fn feed_event_of(id: &Vec<char>, title: &String, start: i64) -> (e: CalEvent)
    ensures
        e@ == feed_event(id@, title@, start),
{
    proof {
        reveal_strlit("ics");
    }
    let ids = string_of(id);
    CalEvent {
        id: ids.clone(),
        title: title.clone(),
        start,
        calendar_id: "ics".to_owned(),
        stable_id: ids,
        occurrence: start,
    }
}

/// The events a feed event yields for the window `[now, until]`.
pub fn events_of(f: &EventFields, start: Option<i64>, now: i64, until: i64) -> (r: Vec<CalEvent>)
    ensures
        views(r@) == pushes_of(fields_view(*f), start, now, until),
{
    let ghost fv = fields_view(*f);
    let title = sanitize_title(unescape_ics(f.summary.as_str()).as_str());
    let mut head = chars_of("ics:");
    head = concat_chars(&head, &chars_of(sanitize_title(f.uid.as_str()).as_str()));
    let mut out: Vec<CalEvent> = Vec::new();
    match &f.rrule {
        Some(rule) => {
            let base = match start {
                Some(b) => b,
                None => {
                    assert(views(out@) =~= Seq::<CalEventView>::empty());
                    return out;
                },
            };
            let ts = expand_rrule(rule.as_str(), base, now, until);
            let ghost want = instance_events(fv, ts@);
            let mut k: usize = 0;
            while k < ts.len()
                invariant
                    k <= ts.len(),
                    want == instance_events(fv, ts@),
                    head@ == "ics:"@ + sanitized_title(fv.uid),
                    title@ == feed_title(fv),
                    views(out@) == want.take(k as int),
                decreases ts.len() - k,
            {
                let mut id = concat_chars(&head, &chars_of(":"));
                id = concat_chars(&id, &decimal_chars(ts[k]));
                let e = feed_event_of(&id, &title, ts[k]);
                let ghost o = out@;
                out.push(e);
                assert(views(out@) =~= views(o).push(e@));
                k += 1;
                assert(views(out@) =~= want.take(k as int));
            }
            assert(want.take(ts.len() as int) =~= want);
            out
        },
        None => {
            if f.cancelled {
                assert(views(out@) =~= Seq::<CalEventView>::empty());
                return out;
            }
            match start {
                Some(s) => {
                    if s < now || s > until {
                        assert(views(out@) =~= Seq::<CalEventView>::empty());
                        return out;
                    }
                    let e = feed_event_of(&head, &title, s);
                    out.push(e);
                    assert(views(out@) =~= seq![e@]);
                    out
                },
                None => {
                    assert(views(out@) =~= Seq::<CalEventView>::empty());
                    out
                },
            }
        },
    }
}

/// Appends `evs` to `out` while it holds fewer than 500 events.
fn append_capped(out: &mut Vec<CalEvent>, evs: Vec<CalEvent>)
    requires
        old(out)@.len() <= MAX_EVENTS,
    ensures
        views(final(out)@) == capped(views(old(out)@) + views(evs@)),
        final(out)@.len() <= MAX_EVENTS,
{
    let ghost o = views(out@);
    let ghost w = views(evs@);
    let mut k: usize = 0;
    while k < evs.len() && out.len() < MAX_EVENTS
        invariant
            k <= evs.len(),
            out@.len() <= MAX_EVENTS,
            o.len() <= MAX_EVENTS,
            w == views(evs@),
            views(out@) == o + w.take(k as int),
        decreases evs.len() - k,
    {
        let ghost before = out@;
        out.push(evs[k].copy_of());
        assert(views(out@) =~= views(before).push(w[k as int]));
        k += 1;
        assert(views(out@) =~= o + w.take(k as int));
    }
    if k == evs.len() {
        assert(w.take(k as int) =~= w);
    } else {
        assert(out@.len() == MAX_EVENTS);
        assert(views(out@) =~= (o + w).take(MAX_EVENTS as int));
    }
}

proof fn lemma_full_stays(fs: Seq<FieldsView>, st: Seq<Option<i64>>, now: i64, until: i64, k: int)
    requires
        0 <= k <= fs.len(),
        st.len() == fs.len(),
        feed_pushes(fs.take(k), st.take(k), now, until).len() == MAX_EVENTS,
    ensures
        feed_pushes(fs, st, now, until) == feed_pushes(fs.take(k), st.take(k), now, until),
    decreases fs.len() - k,
{
    if k == fs.len() {
        assert(fs.take(k) =~= fs);
        assert(st.take(k) =~= st);
    } else {
        let a = feed_pushes(fs.take(k), st.take(k), now, until);
        assert(fs.take(k + 1).drop_last() =~= fs.take(k));
        assert(st.take(k + 1).drop_last() =~= st.take(k));
        let b = pushes_of(fs[k], st[k], now, until);
        assert((a + b).take(MAX_EVENTS as int) =~= a);
        lemma_full_stays(fs, st, now, until, k + 1);
    }
}

/// A start for an event that was never read: what any read of its
/// DTSTART may give.
pub open spec fn unread_start(f: FieldsView) -> Option<i64> {
    match f.dtstart {
        None => None,
        Some(v) => {
            let t = trim(v);
            if !is_all_day(t) && is_utc(t) {
                chrono_utc_seconds(t.drop_last(), date_time_format())
            } else {
                None
            }
        },
    }
}

/// The feed's events and their starts as read: `starts` gives a start that
/// may have been read for every event, and `u` holds, in feed order, the
/// events `feed_pushes` makes of them.
pub open spec fn feed_read(body: Seq<u8>, now: i64, until: i64, starts: Seq<Option<i64>>, u: Seq<CalEvent>) -> bool {
    let fs = feed_fields(ical_calendars(body));
    &&& starts.len() == fs.len()
    &&& forall|i: int| 0 <= i < fs.len() ==> start_ok((#[trigger] fs[i]).dtstart, starts[i])
    &&& views(u) == feed_pushes(fs, starts, now, until)
}

pub open spec fn fields_views(v: Seq<EventFields>) -> Seq<FieldsView> {
    v.map_values(|f: EventFields| fields_view(f))
}

/// The events handed on from a feed whose events have the fields `fields`
/// and the starts `starts` (as read from their DTSTART values): in feed
/// order at most 500, then sorted by start. Mismatched lists yield none.
pub fn feed_events(fields: &Vec<EventFields>, starts: &Vec<Option<i64>>, now: i64, until: i64) -> (r: Vec<CalEvent>)
    ensures
        exists|u: Seq<CalEvent>|
            views(u) == feed_pushes(fields_views(fields@), starts@, now, until) && r@ == sorted_by_start(u),
        r@.len() <= MAX_EVENTS,
        ordered_by_start(r@),
        forall|i: int| 0 <= i < r@.len() ==> feed_event_ok((#[trigger] r@[i])@, now, until),
        forall|i: int| 0 <= i < r@.len() ==> exists|k: int|
            0 <= k < fields@.len() && comes_from((#[trigger] r@[i])@, fields_view(fields@[k])),
{
    let ghost fs = fields_views(fields@);
    let ghost st = starts@;
    let mut out: Vec<CalEvent> = Vec::new();
    if fields.len() != starts.len() {
        assert(views(out@) =~= feed_pushes(fs, st, now, until));
        let r = sort_by_start(out);
        assert(r@ =~= Seq::<CalEvent>::empty());
        return r;
    }
    let mut i: usize = 0;
    assert(fs.take(0) =~= Seq::<FieldsView>::empty());
    assert(st.take(0) =~= Seq::<Option<i64>>::empty());
    while i < fields.len()
        invariant
            i <= fields.len(),
            fields.len() == starts.len(),
            fs == fields_views(fields@),
            st == starts@,
            views(out@) == feed_pushes(fs.take(i as int), st.take(i as int), now, until),
            out@.len() <= MAX_EVENTS,
        ensures
            i < fields.len() ==> out@.len() == MAX_EVENTS,
        decreases fields.len() - i,
    {
        if out.len() >= MAX_EVENTS {
            break;
        }
        let evs = events_of(&fields[i], starts[i], now, until);
        proof {
            assert(fs.take(i + 1).drop_last() =~= fs.take(i as int));
            assert(st.take(i + 1).drop_last() =~= st.take(i as int));
            assert(fs.take(i + 1).last() == fields_view(fields@[i as int]));
        }
        append_capped(&mut out, evs);
        i += 1;
    }
    proof {
        if i < fields.len() {
            assert(views(out@).len() == out@.len());
            lemma_full_stays(fs, st, now, until, i as int);
        } else {
            assert(fs.take(i as int) =~= fs);
            assert(st.take(i as int) =~= st);
        }
    }
    let ghost uv = out@;
    let r = sort_by_start(out);
    proof {
        broadcast use vstd::seq_lib::group_to_multiset_ensures;
        feed_events_stay_in_window(fs, st, now, until);
        every_feed_event_comes_from_a_vevent(fs, st, now, until);
        sorting_keeps_every_event(uv);
        assert forall|k: int| 0 <= k < r@.len() implies feed_event_ok((#[trigger] r@[k])@, now, until)
            && exists|n: int| 0 <= n < fields@.len() && comes_from(r@[k]@, fields_view(fields@[n])) by {
            assert(r@.contains(r@[k]));
            assert(r@.to_multiset().count(r@[k]) > 0);
            assert(uv.contains(r@[k]));
            let m = choose|m: int| 0 <= m < uv.len() && uv[m] == r@[k];
            assert(views(uv)[m] == uv[m]@);
            let n = choose|n: int| 0 <= n < fs.len() && comes_from(#[trigger] views(uv)[m], fs[n]);
            assert(fs[n] == fields_view(fields@[n]));
        }
    }
    r
}

/// Reads the events of a feed within the window `[now, until]`, at most
/// 500, sorted by start. Unreadable calendars and events without a start
/// are passed over.
pub fn parse_ics(body: &[u8], now: i64, until: i64) -> (r: Vec<CalEvent>)
    ensures
        exists|starts: Seq<Option<i64>>, u: Seq<CalEvent>|
            feed_read(body@, now, until, starts, u) && r@ == sorted_by_start(u),
        r@.len() <= MAX_EVENTS,
        ordered_by_start(r@),
        forall|i: int| 0 <= i < r@.len() ==> feed_event_ok((#[trigger] r@[i])@, now, until),
        forall|i: int| 0 <= i < r@.len() ==> exists|k: int|
            0 <= k < feed_fields(ical_calendars(body@)).len() && comes_from(
                (#[trigger] r@[i])@,
                feed_fields(ical_calendars(body@))[k],
            ),
{
    let cals = read_calendars(body);
    let flat = flatten(&cals);
    let ghost fs = feed_fields(ical_calendars(body@));
    assert(fs =~= flat@.map_values(|e: IcsEvent| event_view(e)).map_values(
        |e: Seq<(Seq<char>, Option<Seq<char>>)>| fields_of(e),
    ));
    let mut fields: Vec<EventFields> = Vec::new();
    let mut starts: Vec<Option<i64>> = Vec::new();
    let mut i: usize = 0;
    while i < flat.len()
        invariant
            i <= flat.len(),
            fs.len() == flat@.len(),
            forall|k: int| 0 <= k < flat@.len() ==> #[trigger] fs[k] == fields_of(event_view(flat@[k])),
            fields@.len() == i,
            starts@.len() == i,
            forall|k: int| 0 <= k < i ==> #[trigger] fields_view(fields@[k]) == fs[k],
            forall|k: int| 0 <= k < i ==> start_ok((#[trigger] fs[k]).dtstart, starts@[k]),
        decreases flat.len() - i,
    {
        let f = event_fields(&flat[i]);
        let start = parse_dtstart(&f.dtstart);
        assert(fields_view(f) == fs[i as int]);
        fields.push(f);
        starts.push(start);
        i += 1;
    }
    assert(fields_views(fields@) =~= fs);
    let r = feed_events(&fields, &starts, now, until);
    let ghost u = choose|u: Seq<CalEvent>|
        views(u) == feed_pushes(fields_views(fields@), starts@, now, until) && r@ == sorted_by_start(u);
    assert(feed_read(body@, now, until, starts@, u));
    assert forall|k: int| 0 <= k < r@.len() implies exists|n: int|
        0 <= n < feed_fields(ical_calendars(body@)).len() && comes_from(
            (#[trigger] r@[k])@,
            feed_fields(ical_calendars(body@))[n],
        ) by {
        let n = choose|n: int| 0 <= n < fields@.len() && comes_from(r@[k]@, fields_view(fields@[n]));
        assert(fields_views(fields@)[n] == fields_view(fields@[n]));
        assert(fs[n] == fields_view(fields@[n]));
        assert(comes_from(r@[k]@, fs[n]));
    }
    r
}

} // verus!

verus! {

/// A feed event as handed on: within the window, from the "ics"
/// calendar, with an id beginning "ics:" and a clean title.
pub open spec fn feed_event_ok(e: CalEventView, now: i64, until: i64) -> bool {
    &&& now <= e.start <= until
    &&& e.calendar_id == "ics"@
    &&& has_prefix(e.id, "ics:"@)
    &&& exists|raw: Seq<char>| e.title == sanitized_title(raw)
}

proof fn lemma_in_window(ds: Seq<i64>, from: i64, to: i64)
    ensures
        forall|i: int| 0 <= i < in_window(ds, from, to).len() ==> from <= #[trigger] in_window(ds, from, to)[i] <= to,
    decreases ds.len(),
{
    if ds.len() > 0 {
        lemma_in_window(ds.drop_last(), from, to);
        let w = in_window(ds.drop_last(), from, to);
        if from <= ds.last() && ds.last() <= to {
            assert forall|i: int| 0 <= i < w.push(ds.last()).len() implies from <= #[trigger] w.push(ds.last())[i] <= to by {
                if i < w.len() {
                    assert(w.push(ds.last())[i] == w[i]);
                }
            }
        }
    }
}

proof fn lemma_pushes_ok(f: FieldsView, start: Option<i64>, now: i64, until: i64)
    ensures
        forall|i: int| 0 <= i < pushes_of(f, start, now, until).len() ==> feed_event_ok(
            #[trigger] pushes_of(f, start, now, until)[i],
            now,
            until,
        ),
{
    assert(has_prefix("ics:"@ + sanitized_title(f.uid), "ics:"@)) by {
        assert(("ics:"@ + sanitized_title(f.uid)).take(("ics:"@).len() as int) =~= "ics:"@);
    }
    match f.rrule {
        Some(rule) => match start {
            None => {},
            Some(base) => {
                let ts = expansion(rule, base, now, until);
                match chrono_utc_text(base, stamp_format()) {
                    None => {},
                    Some(stamp) => match rrule_instants(rule_text(stamp, rule), MAX_INSTANCES) {
                        None => {},
                        Some(ds) => lemma_in_window(ds.take(min_len(ds.len(), MAX_INSTANCES as nat)), now, until),
                    },
                }
                assert forall|i: int| 0 <= i < instance_events(f, ts).len() implies feed_event_ok(
                    #[trigger] instance_events(f, ts)[i],
                    now,
                    until,
                ) by {
                    let id = instance_id(f.uid, ts[i]);
                    assert(has_prefix(id, "ics:"@)) by {
                        assert(id.take(("ics:"@).len() as int) =~= "ics:"@);
                    }
                    assert(instance_events(f, ts)[i].title == sanitized_title(unescaped(f.summary)));
                }
            },
        },
        None => {
            if !f.cancelled {
                match start {
                    None => {},
                    Some(s) => {
                        if !(s < now || s > until) {
                            assert(pushes_of(f, start, now, until)[0].title == sanitized_title(unescaped(f.summary)));
                        }
                    },
                }
            }
        },
    }
}

/// Whatever the feed holds and whatever starts were read, at most 500
/// events are handed on, each within the window `[now, until]`, from the
/// "ics" calendar, with an id beginning "ics:" and a clean title.
pub proof fn feed_events_stay_in_window(fs: Seq<FieldsView>, starts: Seq<Option<i64>>, now: i64, until: i64)
    ensures
        feed_pushes(fs, starts, now, until).len() <= MAX_EVENTS,
        forall|i: int| 0 <= i < feed_pushes(fs, starts, now, until).len() ==> feed_event_ok(
            #[trigger] feed_pushes(fs, starts, now, until)[i],
            now,
            until,
        ),
    decreases fs.len(),
{
    if fs.len() > 0 && starts.len() == fs.len() {
        feed_events_stay_in_window(fs.drop_last(), starts.drop_last(), now, until);
        lemma_pushes_ok(fs.last(), starts.last(), now, until);
        let a = feed_pushes(fs.drop_last(), starts.drop_last(), now, until);
        let b = pushes_of(fs.last(), starts.last(), now, until);
        let c = capped(a + b);
        assert forall|i: int| 0 <= i < c.len() implies feed_event_ok(#[trigger] c[i], now, until) by {
            assert(c[i] == (a + b)[i]);
            if i < a.len() {
                assert((a + b)[i] == a[i]);
            } else {
                assert((a + b)[i] == b[i - a.len()]);
            }
        }
    }
}

/// Every event a feed event yields carries that event's title.
proof fn lemma_pushes_title(f: FieldsView, start: Option<i64>, now: i64, until: i64)
    ensures
        forall|i: int| 0 <= i < pushes_of(f, start, now, until).len() ==> (#[trigger] pushes_of(
            f,
            start,
            now,
            until,
        )[i]).title == feed_title(f) && comes_from(pushes_of(f, start, now, until)[i], f),
{
    match (f.rrule, start) {
        (Some(rule), Some(base)) => {
            let ts = expansion(rule, base, now, until);
            assert forall|i: int| 0 <= i < instance_events(f, ts).len() implies comes_from(
                #[trigger] instance_events(f, ts)[i],
                f,
            ) by {
                assert(instance_events(f, ts)[i] == feed_event(instance_id(f.uid, ts[i]), feed_title(f), ts[i]));
            }
        },
        _ => {},
    }
}

/// A feed event yields at most `MAX_INSTANCES` events, however its rule
/// repeats.
pub proof fn feed_event_yields_at_most_max_instances(f: FieldsView, start: Option<i64>, now: i64, until: i64)
    ensures
        pushes_of(f, start, now, until).len() <= MAX_INSTANCES,
{
    match (f.rrule, start) {
        (Some(rule), Some(base)) => expansion_is_capped(rule, base, now, until),
        _ => {},
    }
}

/// Every event handed on from a feed comes from one of the feed's events:
/// the title is that event's unescaped, cleaned SUMMARY, the id its UID.
pub proof fn every_feed_event_comes_from_a_vevent(fs: Seq<FieldsView>, starts: Seq<Option<i64>>, now: i64, until: i64)
    ensures
        forall|i: int| 0 <= i < feed_pushes(fs, starts, now, until).len() ==> exists|k: int|
            0 <= k < fs.len() && comes_from(#[trigger] feed_pushes(fs, starts, now, until)[i], fs[k]),
    decreases fs.len(),
{
    if fs.len() > 0 && starts.len() == fs.len() {
        every_feed_event_comes_from_a_vevent(fs.drop_last(), starts.drop_last(), now, until);
        lemma_pushes_title(fs.last(), starts.last(), now, until);
        let a = feed_pushes(fs.drop_last(), starts.drop_last(), now, until);
        let b = pushes_of(fs.last(), starts.last(), now, until);
        let c = capped(a + b);
        assert forall|i: int| 0 <= i < c.len() implies exists|k: int|
            0 <= k < fs.len() && comes_from(#[trigger] c[i], fs[k]) by {
            assert(c[i] == (a + b)[i]);
            if i < a.len() {
                assert((a + b)[i] == a[i]);
                let k = choose|k: int| 0 <= k < fs.drop_last().len() && comes_from(a[i], fs.drop_last()[k]);
                assert(fs.drop_last()[k] == fs[k]);
            } else {
                assert((a + b)[i] == b[i - a.len()]);
                assert(comes_from(c[i], fs[fs.len() - 1]));
            }
        }
    }
}

} // verus!

verus! {

/// Most bytes read from a feed, after decompression.
pub const MAX_BYTES: usize = 5242880;

/// Does a chunk of `chunk` more bytes still fit after `current` bytes?
/// Reading stops at the first chunk that would not.
pub fn chunk_fits(current: usize, chunk: usize) -> (b: bool)
    ensures
        b == (current + chunk <= MAX_BYTES),
{
    chunk <= MAX_BYTES && current <= MAX_BYTES - chunk
}

/// Most redirects a feed fetch follows.
pub const MAX_REDIRECTS: usize = 3;

/// Whether a redirect is followed: only while fewer than three were, and
/// only to an address that passes the same checks as the stored one.
pub fn follow_redirect(previous: usize, target_allowed: bool) -> (b: bool)
    ensures
        b == (previous < MAX_REDIRECTS && target_allowed),
{
    previous < MAX_REDIRECTS && target_allowed
}

} // verus!
