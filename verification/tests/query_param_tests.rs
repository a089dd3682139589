use ptacek::cmd::snooze_query;
use ptacek::scheduler::percent_encode;
use ptacek::tick::flyby_query;
use ptacek::window::{
    overlay_info_from_query, overlay_info_from_query_checked, overlay_language, overlay_text_mode, percent_decode,
    percent_decode_checked, percent_decode_splits_char, query_param, query_param_checked, OverlayInfo, OverlayState,
};

#[test]
fn dekoduje_procentove_escapy() {
    assert_eq!(percent_decode("Sch%C5%AFzka"), "Schůzka");
    assert_eq!(percent_decode("bez%20escapu"), "bez escapu");
    assert_eq!(percent_decode("nic"), "nic");
}

#[test]
fn nedokoncene_escapy_na_konci_neshodi_dekoder() {
    assert_eq!(percent_decode("a%2"), "a%2");
    assert_eq!(percent_decode("a%"), "a%");
}

#[test]
fn query_param_najde_hodnotu_podle_klice() {
    let q = "mode=event&mascot=bird&title=Sch%C5%AFzka&time=14%3A00";
    assert_eq!(query_param(q, "mascot"), "bird");
    assert_eq!(query_param(q, "title"), "Schůzka");
    assert_eq!(query_param(q, "time"), "14:00");
    assert_eq!(query_param(q, "full"), "");
}

#[test]
fn decoding_undoes_encoding() {
    for s in ["Schůzka · Jan", "a&b=c%d", "", "日本語 🐦"] {
        assert_eq!(percent_decode(&percent_encode(s)), s);
    }
}

#[test]
fn invalid_utf8_becomes_replacement_char() {
    assert_eq!(percent_decode("%FFa"), "\u{FFFD}a");
    assert_eq!(percent_decode("%zz"), "%zz");
}

#[test]
fn overlay_info_prefers_full_title() {
    let info = overlay_info_from_query("mode=event&mascot=bird&title=Kr%C3%A1tk%C3%BD&full=Dlouh%C3%BD&time=14%3A00");
    assert_eq!(info.title, "Dlouhý");
    assert_eq!(info.time, "14:00");
    assert_eq!(info.mascot, "bird");
    let short = overlay_info_from_query("mode=event&mascot=owl&title=Jen%20tohle&time=9%3A15");
    assert_eq!(short.title, "Jen tohle");
}

#[test]
fn overlay_state_keepalive_and_active_flyby() {
    let mut st = OverlayState::new(10_000_000);
    assert!(!st.alive_recently(10_000_000));
    st.touch_keepalive(10_000_000);
    assert!(st.alive_recently(10_024_999));
    assert!(!st.alive_recently(10_025_000));
    assert!(st.active_overlay().is_none());
    st.set_active_overlay(Some(OverlayInfo { title: "A".into(), time: "1".into(), mascot: "m".into() }));
    assert_eq!(st.active_overlay().unwrap().title, "A");
    st.set_active_overlay(None);
    assert!(st.active_overlay().is_none());
    assert_eq!(OverlayInfo::default().title, "");
}

#[test]
fn overlay_language_and_text_mode() {
    assert_eq!(overlay_language("en"), "en");
    assert_eq!(overlay_language("de"), "cs");
    assert_eq!(overlay_text_mode("fun"), "fun");
    assert_eq!(overlay_text_mode("hybrid"), "hybrid");
    assert_eq!(overlay_text_mode("weird"), "title");
}

#[test]
fn flyby_payload_reads_back_on_the_tray() {
    let q = flyby_query("Intro | X mezi X a Jan Novák", "cs", "bird!", "14:00");
    let info = overlay_info_from_query(&q);
    assert_eq!(info.title, "Intro | X mezi X a Jan Novák");
    assert_eq!(info.time, "14:00");
    assert_eq!(info.mascot, "bird");
    assert_eq!(query_param(&q, "title"), "Intro · Jan Novák");
    let blank = overlay_info_from_query(&flyby_query(" ", "en", "owl", "09:30"));
    assert_eq!(blank.title, "Meeting");
}

#[test]
fn snoozed_payload_reads_back() {
    let q = snooze_query("Porada\ttýmu & spol.", "14:00 a velmi dlouhý text", "owl");
    let info = overlay_info_from_query(&q);
    assert_eq!(info.title, "Porada týmu & spol.");
    assert_eq!(info.time, "14:00 a velmi dl");
    assert_eq!(info.mascot, "owl");
}

#[test]
fn checked_decoding_refuses_split_characters() {
    assert_eq!(percent_decode_checked("Sch%C5%AFzka"), Some("Schůzka".to_string()));
    assert_eq!(percent_decode_checked("a%zz"), Some("a%zz".to_string()));
    // the third byte after `%` continues `é`: decoding would slice it
    assert!(percent_decode_splits_char("%4é"));
    assert_eq!(percent_decode_checked("%4é"), None);
    assert!(!percent_decode_splits_char("%41é"));
    assert_eq!(percent_decode_checked("%41é"), Some("Aé".to_string()));
    let q = "mode=event&title=%4é&time=14%3A00";
    assert_eq!(query_param_checked(q, "time"), Some("14:00".to_string()));
    assert_eq!(query_param_checked(q, "title"), None);
    assert_eq!(query_param_checked(q, "full"), Some(String::new()));
    assert!(overlay_info_from_query_checked(q).is_none());
    let ok = overlay_info_from_query_checked("mascot=owl&title=Jen%20tohle&time=9%3A15").unwrap();
    assert_eq!(ok.title, "Jen tohle");
    assert_eq!(ok.time, "9:15");
    assert_eq!(ok.mascot, "owl");
}
