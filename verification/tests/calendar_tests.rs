use ptacek::calendar::{nfc_shim, sanitize_title, sort_by_start, tidy_title, CalEvent};
use ptacek::eventkit::{
    authorization_text, cal_info, calendar_access_api, calendar_kind, declined_by_me, events_from_store,
    Attendee, AuthorizationStatus, CalendarAccessApi, StoreCalendar, StoreEvent,
};

#[test]
fn uses_legacy_calendar_permission_api_when_full_access_selector_is_unavailable() {
    assert_eq!(calendar_access_api(false), CalendarAccessApi::LegacyAccess);
}

#[test]
fn uses_full_calendar_permission_api_when_selector_is_available() {
    assert_eq!(calendar_access_api(true), CalendarAccessApi::FullAccess);
}

#[test]
fn calcom_vzor_se_zkrati() {
    let t = tidy_title("Intro konzultace | Transformuj.ai mezi Transformuj.ai a Filip Oborník");
    assert_eq!(t, "Intro konzultace · Filip Oborník");
}

#[test]
fn anglicky_vzor() {
    let t = tidy_title("Discovery call between Transformuj.ai and John Smith");
    assert_eq!(t, "Discovery call · John Smith");
}

#[test]
fn bezny_nazev_zustane() {
    assert_eq!(tidy_title("Standup"), "Standup");
    assert_eq!(tidy_title("Oběd s Tomášem"), "Oběd s Tomášem");
}

#[test]
fn nesmyslny_vzor_neposkodi() {
    let long = "Porada mezi odděleními o rozpočtu a plánování kapacit na příští kvartál";
    assert_eq!(tidy_title(long), long);
}

#[test]
fn tidy_title_leaves_unmatched_text_alone() {
    assert_eq!(tidy_title("  Standup \t  tymu  "), "  Standup \t  tymu  ");
    assert_eq!(tidy_title(" x"), " x");
    assert_eq!(tidy_title("Porada  s  Tom\u{e1}\u{161}em "), "Porada  s  Tom\u{e1}\u{161}em ");
}

#[test]
fn sanitize_title_drops_controls_and_bidi() {
    assert_eq!(sanitize_title("  A\r\nB\tC\u{202E}D\u{7}  "), "A  B CD");
    assert_eq!(sanitize_title("\u{2066}x\u{2069}"), "x");
}

#[test]
fn sanitize_title_keeps_at_most_120_chars() {
    let long: String = std::iter::repeat('é').take(200).collect();
    assert_eq!(sanitize_title(&long).chars().count(), 120);
}

#[test]
fn nfc_shim_keeps_text() {
    assert_eq!(nfc_shim("Schůzka"), "Schůzka");
}

fn ev(id: &str, start: i64) -> CalEvent {
    CalEvent {
        id: id.to_string(),
        title: id.to_string(),
        start,
        calendar_id: "c".to_string(),
        stable_id: id.to_string(),
        occurrence: start,
    }
}

#[test]
fn sort_by_start_is_stable() {
    let out = sort_by_start(vec![ev("b", 20), ev("a", 10), ev("c", 20), ev("d", 5)]);
    let ids: Vec<&str> = out.iter().map(|e| e.id.as_str()).collect();
    assert_eq!(ids, vec!["d", "a", "b", "c"]);
}

#[test]
fn authorization_texts() {
    assert_eq!(authorization_text(AuthorizationStatus::FullAccess), "authorized");
    assert_eq!(authorization_text(AuthorizationStatus::NotDetermined), "notDetermined");
    assert_eq!(authorization_text(AuthorizationStatus::WriteOnly), "writeOnly");
    assert_eq!(authorization_text(AuthorizationStatus::Other), "unknown");
}

#[test]
fn calendar_kinds() {
    assert_eq!(calendar_kind(4), "birthday");
    assert_eq!(calendar_kind(3), "subscription");
    assert_eq!(calendar_kind(1), "normal");
    let c = cal_info("id1".to_string(), "Práce\n", 0);
    assert_eq!(c.title, "Práce");
    assert_eq!(c.kind, "normal");
}

#[test]
fn declined_invitations_are_found() {
    assert!(!declined_by_me(&None));
    assert!(declined_by_me(&Some(vec![
        Attendee { is_current_user: false, status: 3 },
        Attendee { is_current_user: true, status: 3 },
    ])));
    assert!(!declined_by_me(&Some(vec![Attendee { is_current_user: true, status: 2 }])));
}

fn store_ev(id: &str, start: i64, cal_type: isize, cal_id: &str) -> StoreEvent {
    StoreEvent {
        all_day: false,
        status: 1,
        declined_by_me: false,
        calendar: Some(StoreCalendar { id: cal_id.to_string(), type_code: cal_type }),
        start: Some(start),
        title: format!("{id}\t"),
        id: Some(id.to_string()),
        external_id: None,
        occurrence: None,
    }
}

#[test]
fn store_events_are_filtered_and_sorted() {
    let mut all_day = store_ev("allday", 5, 1, "work");
    all_day.all_day = true;
    let mut cancelled = store_ev("cancelled", 6, 1, "work");
    cancelled.status = 3;
    let mut declined = store_ev("declined", 7, 1, "work");
    declined.declined_by_me = true;
    let mut external = store_ev("moved", 8, 1, "work");
    external.external_id = Some("ext-1".to_string());
    external.occurrence = Some(4);
    let evs = vec![
        store_ev("late", 30, 1, "work"),
        all_day,
        cancelled,
        declined,
        store_ev("birthday", 9, 4, "bday"),
        external,
        store_ev("early", 10, 0, "home"),
    ];
    let out = events_from_store(&evs, &Vec::new());
    let ids: Vec<&str> = out.iter().map(|e| e.id.as_str()).collect();
    assert_eq!(ids, vec!["moved", "early", "late"]);
    assert_eq!(out[0].stable_id, "ext-1");
    assert_eq!(out[0].occurrence, 4);
    assert_eq!(out[1].stable_id, "early");
    assert_eq!(out[1].occurrence, 10);
    assert_eq!(out[1].title, "early");
    let picked = events_from_store(&evs, &vec!["home".to_string(), "bday".to_string()]);
    let ids: Vec<&str> = picked.iter().map(|e| e.id.as_str()).collect();
    assert_eq!(ids, vec!["birthday", "early"]);
}

#[test]
fn store_events_are_capped_at_500() {
    let evs: Vec<StoreEvent> = (0..600).map(|i| store_ev(&format!("e{i}"), 1000 - i, 1, "w")).collect();
    let out = events_from_store(&evs, &Vec::new());
    assert_eq!(out.len(), 500);
    assert_eq!(out[0].start, 401);
}

#[test]
fn sanitizing_twice_changes_nothing() {
    for raw in ["  A\r\nB\tC\u{202E}D\u{7}  ", "Porada", " \u{2066}x\u{2069} ", ""] {
        let once = sanitize_title(raw);
        assert_eq!(sanitize_title(&once), once);
    }
}
