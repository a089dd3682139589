//! The settings: the path of the one file the webview may reach, and how
//! each value read from it falls back to its default on its own.

use vstd::prelude::*;
use crate::ics::{replace_all, replaced};
use crate::text::{chars_of, concat_chars, same_text, string_of};

verus! {

/// The path with Windows separators turned into `/`, as on macOS.
pub open spec fn converted_path(p: Seq<char>) -> Seq<char> {
    replaced(p, "\\"@, "/"@)
}

/// A path with `\` separators turned into `/` (the separator of the
/// systems the app runs on).
pub fn convert_path(path_str: &str) -> (r: Option<String>)
    ensures
        r matches Some(p) && p@ == converted_path(path_str@),
{
    proof {
        reveal_strlit("\\");
    }
    Some(string_of(&replace_all(&chars_of(path_str), &chars_of("\\"), &chars_of("/"))))
}

/// The only configuration file the webview may get a path to.
pub open spec fn settings_file() -> Seq<char> {
    "settings.json"@
}

/// `root` joined with the relative `name` (`Path::join`): a `/` goes
/// between them unless `root` is empty or already ends in one.
pub open spec fn joined(root: Seq<char>, name: Seq<char>) -> Seq<char> {
    if root.len() > 0 && root.last() != '/' {
        root + "/"@ + name
    } else {
        root + name
    }
}

/// The path of the configuration `config_name` in the app's folder
/// `root`; only "settings.json" is given out, so that a compromised
/// webview cannot have JSON written anywhere in the home folder.
pub fn combine_config_path(config_name: &str, root: &str) -> (r: Option<String>)
    ensures
        config_name@ != settings_file() ==> r is None,
        config_name@ == settings_file() ==> (r matches Some(p) && p@ == converted_path(joined(root@, config_name@))),
{
    if !same_text(config_name, "settings.json") {
        return None;
    }
    let rv = chars_of(root);
    let path = if rv.len() > 0 && rv[rv.len() - 1] != '/' {
        concat_chars(&concat_chars(&rv, &chars_of("/")), &chars_of(config_name))
    } else {
        concat_chars(&rv, &chars_of(config_name))
    };
    let text = string_of(&path);
    convert_path(text.as_str())
}

/// The settings the logic reads (the flyby speed, a float, is the app's).
#[derive(Debug, Clone)]
pub struct Settings {
    pub minutes_before: u32,
    pub mascot: String,
    pub calendar_ids: Vec<String>,
    pub sound_enabled: bool,
    pub launch_at_login: bool,
    pub ics_url_set: bool,
    pub mute_until: Option<i64>,
    /// "cs" | "en"
    pub language: String,
    pub first_run_done: bool,
    /// "title" | "fun" | "hybrid"
    pub text_mode: String,
}

/// The settings of a fresh install.
pub open spec fn default_settings(s: Settings) -> bool {
    &&& s.minutes_before == 2
    &&& s.mascot@ == "random"@
    &&& s.calendar_ids@.len() == 0
    &&& !s.sound_enabled
    &&& !s.launch_at_login
    &&& !s.ics_url_set
    &&& s.mute_until is None
    &&& s.language@ == "cs"@
    &&& !s.first_run_done
    &&& s.text_mode@ == "title"@
}

impl Default for Settings {
    fn default() -> (s: Settings)
        ensures
            default_settings(s),
    {
        Settings {
            minutes_before: 2,
            mascot: "random".to_owned(),
            calendar_ids: Vec::new(),
            sound_enabled: false,
            launch_at_login: false,
            ics_url_set: false,
            mute_until: None,
            language: "cs".to_owned(),
            first_run_done: false,
            text_mode: "title".to_owned(),
        }
    }
}

/// What the settings file holds under each key, each `None` when missing
/// or of the wrong type.
#[derive(Debug)]
pub struct RawSettings {
    pub minutes_before: Option<u64>,
    pub mascot: Option<String>,
    pub calendar_ids: Option<Vec<String>>,
    pub sound_enabled: Option<bool>,
    pub launch_at_login: Option<bool>,
    pub ics_url_set: Option<bool>,
    pub mute_until: Option<i64>,
    pub language: Option<String>,
    pub first_run_done: Option<bool>,
    pub text_mode: Option<String>,
}

/// What the settings file holds under each key, as plain values.
pub struct RawSettingsView {
    pub minutes_before: Option<u64>,
    pub mascot: Option<Seq<char>>,
    pub calendar_ids: Option<Seq<Seq<char>>>,
    pub sound_enabled: Option<bool>,
    pub launch_at_login: Option<bool>,
    pub ics_url_set: Option<bool>,
    pub mute_until: Option<i64>,
    pub language: Option<Seq<char>>,
    pub first_run_done: Option<bool>,
    pub text_mode: Option<Seq<char>>,
}

pub open spec fn text_view(v: Option<String>) -> Option<Seq<char>> {
    match v {
        Some(t) => Some(t@),
        None => None,
    }
}

pub open spec fn texts_view(v: Seq<String>) -> Seq<Seq<char>> {
    v.map_values(|t: String| t@)
}

pub open spec fn raw_view(raw: RawSettings) -> RawSettingsView {
    RawSettingsView {
        minutes_before: raw.minutes_before,
        mascot: text_view(raw.mascot),
        calendar_ids: match raw.calendar_ids {
            Some(c) => Some(texts_view(c@)),
            None => None,
        },
        sound_enabled: raw.sound_enabled,
        launch_at_login: raw.launch_at_login,
        ics_url_set: raw.ics_url_set,
        mute_until: raw.mute_until,
        language: text_view(raw.language),
        first_run_done: raw.first_run_done,
        text_mode: text_view(raw.text_mode),
    }
}

pub open spec fn raw_opt_view(raw: Option<RawSettings>) -> Option<RawSettingsView> {
    match raw {
        Some(r) => Some(raw_view(r)),
        None => None,
    }
}

/// What `serde_json` reads from the settings text `text`: `None` when it
/// is not JSON, else the values under the keys of its "app" object, each
/// `None` when missing or of another type.
pub uninterp spec fn json_settings(text: Seq<char>) -> Option<RawSettingsView>;

/// `serde_json::from_str::<Value>(text)`, then under "app" the keys
/// minutesBefore (`as_u64`), mascot, language, textMode (`as_str`),
/// calendarIds (`from_value::<Vec<String>>`), soundEnabled,
/// launchAtLogin, icsUrlSet, firstRunDone (`as_bool`) and muteUntil
/// (`as_i64`). The contract claims only that the result is a function of
/// the text.
#[verifier::external_body]
fn raw_settings_of(text: &str) -> (r: Option<RawSettings>)
    ensures
        raw_opt_view(r) == json_settings(text@),
{
    let v: serde_json::Value = serde_json::from_str(text).ok()?;
    let a = &v["app"];
    Some(RawSettings {
        minutes_before: a["minutesBefore"].as_u64(),
        mascot: a["mascot"].as_str().map(String::from),
        calendar_ids: serde_json::from_value(a["calendarIds"].clone()).ok(),
        sound_enabled: a["soundEnabled"].as_bool(),
        launch_at_login: a["launchAtLogin"].as_bool(),
        ics_url_set: a["icsUrlSet"].as_bool(),
        mute_until: a["muteUntil"].as_i64(),
        language: a["language"].as_str().map(String::from),
        first_run_done: a["firstRunDone"].as_bool(),
        text_mode: a["textMode"].as_str().map(String::from),
    })
}

pub open spec fn or_default<T>(v: Option<T>, d: T) -> T {
    match v {
        Some(x) => x,
        None => d,
    }
}

/// The settings made of what was read: each value that could not be read
/// falls back to its default on its own; the lead time is capped at an
/// hour, any language but "en" reads as "cs", and an unknown text mode
/// falls back to "title".
pub open spec fn settings_of(raw: RawSettingsView, s: Settings) -> bool {
    &&& s.minutes_before == match raw.minutes_before {
        Some(m) => if m <= 60 { m as u32 } else { 60u32 },
        None => 2u32,
    }
    &&& s.mascot@ == match raw.mascot {
        Some(m) => m,
        None => "random"@,
    }
    &&& texts_view(s.calendar_ids@) == match raw.calendar_ids {
        Some(c) => c,
        None => Seq::<Seq<char>>::empty(),
    }
    &&& s.sound_enabled == or_default(raw.sound_enabled, false)
    &&& s.launch_at_login == or_default(raw.launch_at_login, false)
    &&& s.ics_url_set == or_default(raw.ics_url_set, false)
    &&& s.mute_until == raw.mute_until
    &&& s.language@ == match raw.language {
        Some(l) => if l == "en"@ { "en"@ } else { "cs"@ },
        None => "cs"@,
    }
    &&& s.first_run_done == or_default(raw.first_run_done, false)
    &&& s.text_mode@ == match raw.text_mode {
        Some(t) => if t == "title"@ || t == "fun"@ || t == "hybrid"@ { t } else { "title"@ },
        None => "title"@,
    }
}

/// Reads the settings from the text of the settings file: `None` when it
/// is not JSON, else the settings its values make, each falling back to
/// its default on its own.
pub fn settings_from_text(text: &str) -> (r: Option<Settings>)
    ensures
        r is Some <==> json_settings(text@) is Some,
        r matches Some(s) ==> settings_of(json_settings(text@)->0, s),
{
    match raw_settings_of(text) {
        Some(raw) => Some(settings_from(raw)),
        None => None,
    }
}

/// What to make of one read of the settings file.
#[derive(Debug)]
pub enum ConfigPick<T> {
    /// the file was read: use it, and keep it as the last good settings
    Use(T),
    /// the file could not be read: wait a moment and read it once more
    Retry,
    /// it could not be read twice: the last good settings, or the
    /// defaults when there are none
    Fallback(Option<T>),
}

/// The settings never fail to come: an unreadable file gets one retry,
/// then the last settings read well stand in, then the defaults.
pub fn pick_config<T>(read: Option<T>, retried: bool, last_good: Option<T>) -> (p: ConfigPick<T>)
    ensures
        match read {
            Some(c) => p == ConfigPick::Use(c),
            None => if retried {
                p == ConfigPick::Fallback(last_good)
            } else {
                p == ConfigPick::<T>::Retry
            },
        },
{
    match read {
        Some(c) => ConfigPick::Use(c),
        None => if retried {
            ConfigPick::Fallback(last_good)
        } else {
            ConfigPick::Retry
        },
    }
}

/// Builds the settings from what was read, value by value: one value of
/// the wrong type in a hand-edited file never throws away the rest.
pub fn settings_from(raw: RawSettings) -> (s: Settings)
    ensures
        settings_of(raw_view(raw), s),
{
    let ghost r = raw;
    let minutes_before: u32 = match raw.minutes_before {
        Some(m) => if m <= 60 { m as u32 } else { 60 },
        None => 2,
    };
    let mascot = match raw.mascot {
        Some(m) => m,
        None => "random".to_owned(),
    };
    let calendar_ids = match raw.calendar_ids {
        Some(c) => c,
        None => Vec::new(),
    };
    let language = match raw.language {
        Some(l) => if same_text(l.as_str(), "en") { "en".to_owned() } else { "cs".to_owned() },
        None => "cs".to_owned(),
    };
    let text_mode = match raw.text_mode {
        Some(t) => if same_text(t.as_str(), "title") || same_text(t.as_str(), "fun") || same_text(t.as_str(), "hybrid") {
            t
        } else {
            "title".to_owned()
        },
        None => "title".to_owned(),
    };
    let s = Settings {
        minutes_before,
        mascot,
        calendar_ids,
        sound_enabled: match raw.sound_enabled {
            Some(b) => b,
            None => false,
        },
        launch_at_login: match raw.launch_at_login {
            Some(b) => b,
            None => false,
        },
        ics_url_set: match raw.ics_url_set {
            Some(b) => b,
            None => false,
        },
        mute_until: raw.mute_until,
        language,
        first_run_done: match raw.first_run_done {
            Some(b) => b,
            None => false,
        },
        text_mode,
    };
    assert(texts_view(s.calendar_ids@) =~= match r.calendar_ids {
        Some(c) => texts_view(c@),
        None => Seq::<Seq<char>>::empty(),
    });
    s
}

} // verus!
