//! The tray menu's texts and what its items decide: muting for an hour or
//! until midnight (and lifting the mute), and the mute shown in the titles.

use vstd::prelude::*;
use crate::ics::{replace_all, replaced};
use crate::text::{chars_of, same_text, string_of};

verus! {

/// The titles of the tray menu in one language.
#[derive(Debug, Clone, Copy)]
pub struct TrayTexts {
    pub try_now: &'static str,
    pub mute_1h: &'static str,
    pub mute_today: &'static str,
    /// "{}" stands for the time the mute ends
    pub muted_until: &'static str,
    pub snooze: &'static str,
    pub close_flyby: &'static str,
    pub setting: &'static str,
    pub quit: &'static str,
    pub about: &'static str,
}

/// The English titles.
pub open spec fn english_texts(t: TrayTexts) -> bool {
    &&& t.try_now@ == "Try now"@
    &&& t.mute_1h@ == "Mute for 1 hour"@
    &&& t.mute_today@ == "Mute until tomorrow"@
    &&& t.muted_until@ == "Muted until {} — click to unmute"@
    &&& t.snooze@ == "Snooze flyby by 5 minutes"@
    &&& t.close_flyby@ == "Close flyby"@
    &&& t.setting@ == "Settings…"@
    &&& t.quit@ == "Quit"@
    &&& t.about@ == "Made by Transformuj.ai"@
}

/// The Czech titles.
pub open spec fn czech_texts(t: TrayTexts) -> bool {
    &&& t.try_now@ == "Vyzkoušet teď"@
    &&& t.mute_1h@ == "Ztlumit na 1 hodinu"@
    &&& t.mute_today@ == "Ztlumit do konce dne"@
    &&& t.muted_until@ == "Ztlumeno do {} — kliknutím zrušíš"@
    &&& t.snooze@ == "Odložit o 5 minut"@
    &&& t.close_flyby@ == "Zavřít přelet"@
    &&& t.setting@ == "Nastavení…"@
    &&& t.quit@ == "Ukončit"@
    &&& t.about@ == "Vyrobeno v Transformuj.ai"@
}

/// The tray titles: English for "en", Czech for anything else.
pub fn texts(lang: &str) -> (t: TrayTexts)
    ensures
        lang@ == "en"@ ==> english_texts(t),
        lang@ != "en"@ ==> czech_texts(t),
{
    if same_text(lang, "en") {
        TrayTexts {
            try_now: "Try now",
            mute_1h: "Mute for 1 hour",
            mute_today: "Mute until tomorrow",
            muted_until: "Muted until {} — click to unmute",
            snooze: "Snooze flyby by 5 minutes",
            close_flyby: "Close flyby",
            setting: "Settings…",
            quit: "Quit",
            about: "Made by Transformuj.ai",
        }
    } else {
        TrayTexts {
            try_now: "Vyzkoušet teď",
            mute_1h: "Ztlumit na 1 hodinu",
            mute_today: "Ztlumit do konce dne",
            muted_until: "Ztlumeno do {} — kliknutím zrušíš",
            snooze: "Odložit o 5 minut",
            close_flyby: "Zavřít přelet",
            setting: "Nastavení…",
            quit: "Ukončit",
            about: "Vyrobeno v Transformuj.ai",
        }
    }
}

/// What a mute item of the tray does.
#[derive(Debug, Clone, Copy, PartialEq, Eq, Structural)]
pub enum MuteAction {
    /// lift the mute
    Unmute,
    /// mute until this unix time
    MuteUntil(i64),
}

/// Seconds "mute for 1 hour" mutes for.
pub const HOUR: i64 = 3600;

/// The mute in force at `now`, if any.
pub open spec fn active_mute_spec(mute_until: Option<i64>, now: i64) -> Option<i64> {
    match mute_until {
        Some(t) => if t > now { Some(t) } else { None },
        None => None,
    }
}

/// The mute in force at `now`, if any.
pub fn active_mute(mute_until: Option<i64>, now: i64) -> (r: Option<i64>)
    ensures
        r == active_mute_spec(mute_until, now),
{
    match mute_until {
        Some(t) => if t > now { Some(t) } else { None },
        None => None,
    }
}

pub open spec fn mute_1h_spec(mute_until: Option<i64>, now: i64, ends_at_midnight: bool) -> MuteAction {
    if active_mute_spec(mute_until, now) is Some && !ends_at_midnight {
        MuteAction::Unmute
    } else {
        MuteAction::MuteUntil((now + HOUR) as i64)
    }
}

/// "Mute for 1 hour": lifts an hour mute in force, else mutes for an hour
/// from `now` (an until-midnight mute is replaced). `ends_at_midnight`
/// tells whether the current mute ends at local midnight.
pub fn mute_1h_action(mute_until: Option<i64>, now: i64, ends_at_midnight: bool) -> (a: MuteAction)
    requires
        now <= i64::MAX - HOUR,
    ensures
        a == mute_1h_spec(mute_until, now, ends_at_midnight),
{
    if active_mute(mute_until, now).is_some() && !ends_at_midnight {
        MuteAction::Unmute
    } else {
        MuteAction::MuteUntil(now + HOUR)
    }
}

/// Seconds of the fallback when the next local midnight is unknown.
pub const DAY: i64 = 86400;

pub open spec fn mute_today_spec(
    mute_until: Option<i64>,
    now: i64,
    ends_at_midnight: bool,
    next_midnight: Option<i64>,
) -> MuteAction {
    if active_mute_spec(mute_until, now) is Some && ends_at_midnight {
        MuteAction::Unmute
    } else {
        MuteAction::MuteUntil(
            match next_midnight {
                Some(m) => m,
                None => (now + DAY) as i64,
            },
        )
    }
}

/// "Mute until tomorrow": lifts an until-midnight mute in force, else
/// mutes until the next local midnight (a day from `now` when that is
/// unknown).
pub fn mute_today_action(mute_until: Option<i64>, now: i64, ends_at_midnight: bool, next_midnight: Option<i64>) -> (a:
    MuteAction)
    requires
        now <= i64::MAX - DAY,
    ensures
        a == mute_today_spec(mute_until, now, ends_at_midnight, next_midnight),
{
    if active_mute(mute_until, now).is_some() && ends_at_midnight {
        MuteAction::Unmute
    } else {
        MuteAction::MuteUntil(
            match next_midnight {
                Some(m) => m,
                None => now + DAY,
            },
        )
    }
}

/// Pressing a mute item twice lifts the mute it set: an hour mute set at
/// `now` is in force at `now` and does not end at midnight, so the next
/// press of "mute for 1 hour" lifts it; likewise for "mute until
/// tomorrow" with a midnight in the future.
pub proof fn mute_items_toggle(now: i64, midnight: i64)
    requires
        now <= i64::MAX - DAY,
        midnight > now,
    ensures
        ({
            let a = mute_1h_spec(None, now, false);
            &&& a == MuteAction::MuteUntil((now + HOUR) as i64)
            &&& mute_1h_spec(Some((now + HOUR) as i64), now, false) == MuteAction::Unmute
        }),
        ({
            let a = mute_today_spec(None, now, false, Some(midnight));
            &&& a == MuteAction::MuteUntil(midnight)
            &&& mute_today_spec(Some(midnight), now, true, Some(midnight)) == MuteAction::Unmute
        }),
{
}

/// `muted_until` with "{}" replaced by the time the mute ends.
pub open spec fn mute_label(muted_until: Seq<char>, time: Seq<char>) -> Seq<char> {
    replaced(muted_until, "{}"@, time)
}

/// The titles of "mute for 1 hour" and "mute until tomorrow": the label of
/// a mute in force goes only to the item that set it (the one ending at
/// midnight, or the hour one), the other keeps its own title.
pub open spec fn mute_titles_spec(
    mute_1h: Seq<char>,
    mute_today: Seq<char>,
    muted_until: Seq<char>,
    until: Option<i64>,
    time: Seq<char>,
    ends_at_midnight: bool,
) -> (Seq<char>, Seq<char>) {
    match until {
        Some(_) => if ends_at_midnight {
            (mute_1h, mute_label(muted_until, time))
        } else {
            (mute_label(muted_until, time), mute_today)
        },
        None => (mute_1h, mute_today),
    }
}

/// The titles of the two mute items for the mute `until` (`time` is its
/// end as the user's clock shows it).
pub fn mute_titles(t: &TrayTexts, until: Option<i64>, time: &str, ends_at_midnight: bool) -> (r: (String, String))
    ensures
        (r.0@, r.1@) == mute_titles_spec(
            t.mute_1h@,
            t.mute_today@,
            t.muted_until@,
            until,
            time@,
            ends_at_midnight,
        ),
{
    match until {
        Some(_) => {
            proof {
                reveal_strlit("{}");
            }
            let label = string_of(&replace_all(&chars_of(t.muted_until), &chars_of("{}"), &chars_of(time)));
            if ends_at_midnight {
                (t.mute_1h.to_owned(), label)
            } else {
                (label, t.mute_today.to_owned())
            }
        },
        None => (t.mute_1h.to_owned(), t.mute_today.to_owned()),
    }
}

/// What a click on a tray item asks for.
#[derive(Debug, Clone, Copy, PartialEq, Eq, Structural)]
pub enum TrayAction {
    TryNow,
    Snooze,
    CloseFlyby,
    Mute1h,
    MuteToday,
    Settings,
    Quit,
    About,
    Nothing,
}

pub open spec fn tray_action_spec(id: Seq<char>) -> TrayAction {
    if id == "try_now"@ {
        TrayAction::TryNow
    } else if id == "tray_snooze"@ {
        TrayAction::Snooze
    } else if id == "tray_close"@ {
        TrayAction::CloseFlyby
    } else if id == "mute_1h"@ {
        TrayAction::Mute1h
    } else if id == "mute_today"@ {
        TrayAction::MuteToday
    } else if id == "setting"@ {
        TrayAction::Settings
    } else if id == "quit"@ {
        TrayAction::Quit
    } else if id == "about"@ {
        TrayAction::About
    } else {
        TrayAction::Nothing
    }
}

/// The action of the tray item with id `id`; unknown ids do nothing.
pub fn tray_action(id: &str) -> (a: TrayAction)
    ensures
        a == tray_action_spec(id@),
{
    if same_text(id, "try_now") {
        TrayAction::TryNow
    } else if same_text(id, "tray_snooze") {
        TrayAction::Snooze
    } else if same_text(id, "tray_close") {
        TrayAction::CloseFlyby
    } else if same_text(id, "mute_1h") {
        TrayAction::Mute1h
    } else if same_text(id, "mute_today") {
        TrayAction::MuteToday
    } else if same_text(id, "setting") {
        TrayAction::Settings
    } else if same_text(id, "quit") {
        TrayAction::Quit
    } else if same_text(id, "about") {
        TrayAction::About
    } else {
        TrayAction::Nothing
    }
}

} // verus!
