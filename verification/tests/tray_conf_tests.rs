use ptacek::conf::{
    combine_config_path, convert_path, pick_config, settings_from, settings_from_text, ConfigPick, RawSettings, Settings,
};
use ptacek::tray::{active_mute, mute_1h_action, mute_titles, mute_today_action, texts, tray_action, MuteAction, TrayAction};

#[test]
fn tray_texts_by_language() {
    assert_eq!(texts("en").quit, "Quit");
    assert_eq!(texts("cs").quit, "Ukončit");
    assert_eq!(texts("de").snooze, "Odložit o 5 minut");
    assert_eq!(texts("en").muted_until, "Muted until {} — click to unmute");
}

#[test]
fn mute_hour_toggles() {
    assert_eq!(mute_1h_action(None, 1000, false), MuteAction::MuteUntil(4600));
    assert_eq!(mute_1h_action(Some(4600), 1000, false), MuteAction::Unmute);
    // an until-midnight mute is replaced by an hour
    assert_eq!(mute_1h_action(Some(50000), 1000, true), MuteAction::MuteUntil(4600));
    // an expired mute does not count
    assert_eq!(mute_1h_action(Some(900), 1000, false), MuteAction::MuteUntil(4600));
}

#[test]
fn mute_today_toggles() {
    assert_eq!(mute_today_action(None, 1000, false, Some(86400)), MuteAction::MuteUntil(86400));
    assert_eq!(mute_today_action(None, 1000, false, None), MuteAction::MuteUntil(87400));
    assert_eq!(mute_today_action(Some(86400), 1000, true, Some(86400)), MuteAction::Unmute);
    assert_eq!(mute_today_action(Some(4600), 1000, false, Some(86400)), MuteAction::MuteUntil(86400));
}

#[test]
fn mute_label_goes_to_the_item_that_set_it() {
    let t = texts("en");
    let (h, d) = mute_titles(&t, Some(5), "14:30", false);
    assert_eq!(h, "Muted until 14:30 — click to unmute");
    assert_eq!(d, "Mute until tomorrow");
    let (h, d) = mute_titles(&t, Some(5), "00:00", true);
    assert_eq!(h, "Mute for 1 hour");
    assert_eq!(d, "Muted until 00:00 — click to unmute");
    let (h, d) = mute_titles(&t, None, "", false);
    assert_eq!((h.as_str(), d.as_str()), ("Mute for 1 hour", "Mute until tomorrow"));
    assert_eq!(active_mute(Some(10), 20), None);
    assert_eq!(active_mute(Some(30), 20), Some(30));
}

#[test]
fn tray_ids() {
    assert_eq!(tray_action("try_now"), TrayAction::TryNow);
    assert_eq!(tray_action("tray_snooze"), TrayAction::Snooze);
    assert_eq!(tray_action("mute_today"), TrayAction::MuteToday);
    assert_eq!(tray_action("whatever"), TrayAction::Nothing);
}

#[test]
fn config_paths() {
    assert_eq!(convert_path("a\\b/c").unwrap(), "a/b/c");
    assert_eq!(
        combine_config_path("settings.json", "/Users/x/Library/Application Support/Ptacek").unwrap(),
        "/Users/x/Library/Application Support/Ptacek/settings.json"
    );
    assert_eq!(combine_config_path("settings.json", "/root/").unwrap(), "/root/settings.json");
    assert!(combine_config_path("../../.ssh/config", "/root").is_none());
}

fn empty_raw() -> RawSettings {
    RawSettings {
        minutes_before: None,
        mascot: None,
        calendar_ids: None,
        sound_enabled: None,
        launch_at_login: None,
        ics_url_set: None,
        mute_until: None,
        language: None,
        first_run_done: None,
        text_mode: None,
    }
}

#[test]
fn settings_fall_back_value_by_value() {
    let d = settings_from(empty_raw());
    let def = Settings::default();
    assert_eq!(d.minutes_before, def.minutes_before);
    assert_eq!(d.mascot, "random");
    assert_eq!(d.language, "cs");
    assert_eq!(d.text_mode, "title");
    let mut raw = empty_raw();
    raw.minutes_before = Some(99999);
    raw.language = Some("en".to_string());
    raw.text_mode = Some("loud".to_string());
    raw.calendar_ids = Some(vec!["a".to_string()]);
    raw.mute_until = Some(42);
    let s = settings_from(raw);
    assert_eq!(s.minutes_before, 60);
    assert_eq!(s.language, "en");
    assert_eq!(s.text_mode, "title");
    assert_eq!(s.calendar_ids, vec!["a".to_string()]);
    assert_eq!(s.mute_until, Some(42));
    let mut raw = empty_raw();
    raw.language = Some("de".to_string());
    raw.text_mode = Some("fun".to_string());
    let s = settings_from(raw);
    assert_eq!(s.language, "cs");
    assert_eq!(s.text_mode, "fun");
}

#[test]
fn settings_are_read_from_the_file_text() {
    assert!(settings_from_text("not json {").is_none());
    let d = settings_from_text("{}").unwrap();
    assert_eq!(d.minutes_before, 2);
    assert_eq!(d.mascot, "random");
    assert!(d.calendar_ids.is_empty());
    let text = r#"{"app": {"minutesBefore": 5, "mascot": "owl", "calendarIds": ["a", "b"],
        "soundEnabled": true, "launchAtLogin": "yes", "icsUrlSet": true, "muteUntil": 1700000000,
        "language": "en", "firstRunDone": true, "textMode": "hybrid", "speed": 1.5}}"#;
    let s = settings_from_text(text).unwrap();
    assert_eq!(s.minutes_before, 5);
    assert_eq!(s.mascot, "owl");
    assert_eq!(s.calendar_ids, vec!["a".to_string(), "b".to_string()]);
    assert!(s.sound_enabled);
    assert!(!s.launch_at_login, "a value of the wrong type falls back on its own");
    assert!(s.ics_url_set);
    assert_eq!(s.mute_until, Some(1700000000));
    assert_eq!(s.language, "en");
    assert!(s.first_run_done);
    assert_eq!(s.text_mode, "hybrid");
    let s = settings_from_text(r#"{"app": {"minutesBefore": -3, "calendarIds": [1, 2]}}"#).unwrap();
    assert_eq!(s.minutes_before, 2);
    assert!(s.calendar_ids.is_empty());
}

#[test]
fn unreadable_settings_retry_once_then_fall_back() {
    assert!(matches!(pick_config(Some(5), false, Some(1)), ConfigPick::Use(5)));
    assert!(matches!(pick_config(None::<i32>, false, Some(1)), ConfigPick::Retry));
    assert!(matches!(pick_config(None, true, Some(1)), ConfigPick::Fallback(Some(1))));
    assert!(matches!(pick_config(None::<i32>, true, None), ConfigPick::Fallback(None)));
}
