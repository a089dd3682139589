use ptacek::feed_url::{is_forbidden_ip, judge_host, validate_url, IpAddress};
use ptacek::ics::{
    chunk_fits, event_fields, expand_rrule, feed_events, follow_redirect, parse_dtstart, parse_ics, unescape_ics,
    EventFields, IcsEvent, IcsProperty, MAX_EVENTS,
};

fn now() -> i64 {
    chrono::Utc::now().timestamp()
}

fn parse_24h(body: &[u8]) -> Vec<ptacek::calendar::CalEvent> {
    let n = now();
    parse_ics(body, n, n + 24 * 3600)
}

fn ics_with_summary(summary: &str) -> Vec<u8> {
    let start = chrono::Utc::now() + chrono::Duration::hours(2);
    format!(
        "BEGIN:VCALENDAR\r\nBEGIN:VEVENT\r\nUID:t1\r\nSUMMARY:{summary}\r\nDTSTART:{}\r\nEND:VEVENT\r\nEND:VCALENDAR\r\n",
        start.format("%Y%m%dT%H%M%SZ")
    )
    .into_bytes()
}

#[test]
fn xss_v_summary_zustane_textem() {
    let evs = parse_24h(&ics_with_summary("<script>alert(1)</script>"));
    assert_eq!(evs.len(), 1);
    assert!(evs[0].title.contains("<script>"));
}

#[test]
fn crlf_injection_je_odstranena() {
    let evs = parse_24h(&ics_with_summary("A\\nBEGIN:VEVENT zlo"));
    assert_eq!(evs.len(), 1);
    assert!(!evs[0].title.contains('\n'));
    assert!(!evs[0].title.contains('\r'));
}

#[test]
fn bidi_override_je_odstranen() {
    let evs = parse_24h(&ics_with_summary("Schůzka \u{202E}elzo"));
    assert_eq!(evs.len(), 1);
    assert!(!evs[0].title.contains('\u{202E}'));
}

#[test]
fn binarni_smeti_neshodi_parser() {
    let evs = parse_24h(&[0u8, 159, 146, 150, 13, 10, 66, 67]);
    assert!(evs.is_empty());
}

#[test]
fn html_misto_ics_vrati_prazdno() {
    let evs = parse_24h(b"<html><body>login</body></html>");
    assert!(evs.is_empty());
}

#[test]
fn cap_500_udalosti() {
    let start = chrono::Utc::now() + chrono::Duration::hours(2);
    let mut body = String::from("BEGIN:VCALENDAR\r\n");
    for i in 0..1000 {
        body.push_str(&format!(
            "BEGIN:VEVENT\r\nUID:u{i}\r\nSUMMARY:E{i}\r\nDTSTART:{}\r\nEND:VEVENT\r\n",
            start.format("%Y%m%dT%H%M%SZ")
        ));
    }
    body.push_str("END:VCALENDAR\r\n");
    let evs = parse_24h(body.as_bytes());
    assert!(evs.len() <= MAX_EVENTS);
}

#[test]
fn validace_url_odmitne_spatne() {
    assert!(validate_url("http://example.com/cal.ics").is_err());
    assert!(validate_url("https://localhost/cal.ics").is_err());
    assert!(validate_url("https://127.0.0.1/cal.ics").is_err());
    assert!(validate_url("https://[::1]/cal.ics").is_err());
    assert!(validate_url("https://example.com:8080/cal.ics").is_err());
    assert!(validate_url("ftp://example.com/cal.ics").is_err());
    // a domain resolving to public addresses is accepted (fixed addresses
    // stand for the resolver here)
    let google = validate_url("https://calendar.google.com/calendar/ical/x/basic.ics").unwrap();
    assert_eq!(google.host, "calendar.google.com");
    assert!(judge_host(&Some(vec![IpAddress::V4([142, 250, 74, 46])])).is_ok());
    let alt_port = validate_url("https://example.com:8443/cal.ics").unwrap();
    assert_eq!(alt_port.port, 8443);
    assert!(judge_host(&Some(vec![IpAddress::V4([93, 184, 215, 14])])).is_ok());
}

#[test]
fn ip_hosts_and_private_resolutions_are_refused() {
    assert_eq!(validate_url("https://127.0.0.1/cal.ics").unwrap_err(), "IP adresy nejsou povolené, použij doménu");
    assert_eq!(validate_url("https://[::1]/cal.ics").unwrap_err(), "IP adresy nejsou povolené, použij doménu");
    assert_eq!(validate_url("https://0x7f.1/cal.ics").unwrap_err(), "IP adresy nejsou povolené, použij doménu");
    assert_eq!(validate_url("https://printer.local/cal.ics").unwrap_err(), "Lokální adresy nejsou povolené");
    assert!(judge_host(&None).is_err());
    assert!(judge_host(&Some(vec![])).is_err());
    assert!(judge_host(&Some(vec![IpAddress::V4([93, 184, 215, 14]), IpAddress::V4([10, 0, 0, 1])])).is_err());
}

#[test]
fn rrule_se_rozbali_do_okna() {
    let start = chrono::Utc::now() - chrono::Duration::hours(1);
    let body = format!(
        "BEGIN:VCALENDAR\r\nBEGIN:VEVENT\r\nUID:r1\r\nSUMMARY:Standup\r\nRRULE:FREQ=DAILY\r\nDTSTART:{}\r\nEND:VEVENT\r\nEND:VCALENDAR\r\n",
        start.format("%Y%m%dT%H%M%SZ")
    );
    let evs = parse_24h(body.as_bytes());
    assert!(!evs.is_empty(), "opakovaná událost se má rozbalit");
    assert!(evs.iter().all(|e| e.title == "Standup"));
}

#[test]
fn rrule_bomba_je_omezena() {
    let start = chrono::Utc::now() + chrono::Duration::minutes(1);
    let body = format!(
        "BEGIN:VCALENDAR\r\nBEGIN:VEVENT\r\nUID:bomb\r\nSUMMARY:Bomba\r\nRRULE:FREQ=SECONDLY;COUNT=999999999\r\nDTSTART:{}\r\nEND:VEVENT\r\nEND:VCALENDAR\r\n",
        start.format("%Y%m%dT%H%M%SZ")
    );
    let t0 = std::time::Instant::now();
    let evs = parse_24h(body.as_bytes());
    assert!(evs.len() <= 100, "strop instancí musí držet");
    assert!(t0.elapsed().as_secs() < 3, "expanze nesmí trvat věčnost");
}

#[test]
fn feed_events_have_ids_window_and_order() {
    let a = chrono::Utc::now() + chrono::Duration::hours(3);
    let b = chrono::Utc::now() + chrono::Duration::hours(1);
    let past = chrono::Utc::now() - chrono::Duration::hours(1);
    let body = format!(
        "BEGIN:VCALENDAR\r\n\
         BEGIN:VEVENT\r\nUID:later\r\nSUMMARY:Later\r\nDTSTART:{}\r\nEND:VEVENT\r\n\
         BEGIN:VEVENT\r\nUID:sooner\r\nSUMMARY:Sooner\\, really\r\nDTSTART:{}\r\nEND:VEVENT\r\n\
         BEGIN:VEVENT\r\nUID:gone\r\nSUMMARY:Past\r\nDTSTART:{}\r\nEND:VEVENT\r\n\
         BEGIN:VEVENT\r\nUID:off\r\nSUMMARY:Off\r\nSTATUS:cancelled\r\nDTSTART:{}\r\nEND:VEVENT\r\n\
         END:VCALENDAR\r\n",
        a.format("%Y%m%dT%H%M%SZ"),
        b.format("%Y%m%dT%H%M%SZ"),
        past.format("%Y%m%dT%H%M%SZ"),
        a.format("%Y%m%dT%H%M%SZ"),
    );
    let evs = parse_24h(body.as_bytes());
    assert_eq!(evs.len(), 2);
    assert_eq!(evs[0].id, "ics:sooner");
    assert_eq!(evs[0].title, "Sooner, really");
    assert_eq!(evs[0].calendar_id, "ics");
    assert_eq!(evs[0].stable_id, "ics:sooner");
    assert_eq!(evs[0].start, b.timestamp());
    assert_eq!(evs[1].id, "ics:later");
}

#[test]
fn repeating_event_instances_carry_their_start() {
    let base = chrono::Utc::now() - chrono::Duration::hours(1);
    let ts = base.timestamp();
    let body = format!(
        "BEGIN:VCALENDAR\r\nBEGIN:VEVENT\r\nUID:r1\r\nSUMMARY:Daily\r\nRRULE:FREQ=DAILY;COUNT=3\r\nDTSTART:{}\r\nEND:VEVENT\r\nEND:VCALENDAR\r\n",
        base.format("%Y%m%dT%H%M%SZ")
    );
    let n = now();
    let evs = parse_ics(body.as_bytes(), n, n + 3 * 24 * 3600);
    assert_eq!(evs.len(), 2);
    assert_eq!(evs[0].start, ts + 86400);
    assert_eq!(evs[0].id, format!("ics:r1:{}", ts + 86400));
    assert_eq!(evs[1].start, ts + 2 * 86400);
}

#[test]
fn expand_rrule_filters_to_the_window() {
    // 2024-01-01T10:00:00Z
    let base = 1704103200;
    let all = expand_rrule("FREQ=DAILY;COUNT=5", base, base, base + 10 * 86400);
    assert_eq!(all, vec![base, base + 86400, base + 2 * 86400, base + 3 * 86400, base + 4 * 86400]);
    let some = expand_rrule("  FREQ=DAILY;COUNT=5 ", base, base + 1, base + 2 * 86400);
    assert_eq!(some, vec![base + 86400, base + 2 * 86400]);
    assert!(expand_rrule("NONSENSE", base, base, base + 86400).is_empty());
}

#[test]
fn expand_rrule_refuses_rules_spanning_lines() {
    let base = 1704103200;
    assert!(expand_rrule("FREQ=DAILY\nRDATE:20300101T090000", base, base, base + 86400).is_empty());
    assert!(expand_rrule("FREQ=DAILY;COUNT=2\r", base, base, base + 86400).is_empty());
    assert_eq!(expand_rrule("FREQ=DAILY;COUNT=2", base, base, base + 86400), vec![base, base + 86400]);
}

#[test]
fn expand_rrule_caps_instances() {
    let base = 1704103200;
    let all = expand_rrule("FREQ=SECONDLY;COUNT=999999999", base, base, base + 86400);
    assert_eq!(all.len(), 100);
    assert_eq!(all[99], base + 99);
}

#[test]
fn dtstart_forms() {
    assert_eq!(parse_dtstart(&Some("20240101T100000Z".to_string())), Some(1704103200));
    assert_eq!(parse_dtstart(&Some(" 20240101T100000Z ".to_string())), Some(1704103200));
    assert_eq!(parse_dtstart(&None), None);
    assert_eq!(parse_dtstart(&Some("garbage".to_string())), None);
    assert!(parse_dtstart(&Some("20240101".to_string())).is_some());
    assert!(parse_dtstart(&Some("20240101T100000".to_string())).is_some());
    // an all-day date is reminded at 9:00 local time, within a day of 9:00 UTC
    let nine_utc = 1704099600;
    let all_day = parse_dtstart(&Some("20240101".to_string())).unwrap();
    assert!(all_day > nine_utc - 86400 && all_day < nine_utc + 86400);
    assert_eq!(parse_dtstart(&Some("20241301".to_string())), None);
}

#[test]
fn unescape_handles_every_escape() {
    assert_eq!(unescape_ics("a\\nb\\Nc\\,d\\;e\\\\f"), "a b c,d;e\\f");
    assert_eq!(unescape_ics("\\\\n"), "\\n");
    assert_eq!(unescape_ics("a\\\\nb"), "a\\nb");
    assert_eq!(unescape_ics("a\\,\\,nb"), "a,,nb");
    assert_eq!(unescape_ics("a\\x\\"), "a\\x\\");
}

fn prop(name: &str, value: Option<&str>) -> IcsProperty {
    IcsProperty { name: name.to_string(), value: value.map(|v| v.to_string()) }
}

#[test]
fn later_lines_win_and_status_ignores_case() {
    let ev = IcsEvent {
        properties: vec![
            prop("SUMMARY", Some("first")),
            prop("SUMMARY", Some("second")),
            prop("UID", None),
            prop("STATUS", Some("CaNcElLeD")),
            prop("DTSTART", Some("20240101T100000Z")),
            prop("RRULE", Some("FREQ=DAILY")),
            prop("X-OTHER", Some("x")),
        ],
    };
    let f = event_fields(&ev);
    assert_eq!(f.summary, "second");
    assert_eq!(f.uid, "");
    assert!(f.cancelled);
    assert_eq!(f.dtstart, Some("20240101T100000Z".to_string()));
    assert_eq!(f.rrule, Some("FREQ=DAILY".to_string()));
}

#[test]
fn body_and_redirect_limits() {
    assert!(chunk_fits(0, 5 * 1024 * 1024));
    assert!(!chunk_fits(1, 5 * 1024 * 1024));
    assert!(follow_redirect(2, true));
    assert!(!follow_redirect(3, true));
    assert!(!follow_redirect(0, false));
}

#[test]
fn forbidden_addresses() {
    for ip in [
        IpAddress::V4([127, 0, 0, 1]),
        IpAddress::V4([10, 1, 2, 3]),
        IpAddress::V4([172, 20, 0, 1]),
        IpAddress::V4([192, 168, 1, 1]),
        IpAddress::V4([169, 254, 0, 1]),
        IpAddress::V4([224, 0, 0, 1]),
        IpAddress::V4([255, 255, 255, 255]),
        IpAddress::V4([0, 0, 0, 0]),
        IpAddress::V4([100, 64, 0, 1]),
        IpAddress::V6([0, 0, 0, 0, 0, 0, 0, 1]),
        IpAddress::V6([0, 0, 0, 0, 0, 0, 0, 0]),
        IpAddress::V6([0xff02, 0, 0, 0, 0, 0, 0, 1]),
        IpAddress::V6([0xfd00, 0, 0, 0, 0, 0, 0, 1]),
        IpAddress::V6([0xfe80, 0, 0, 0, 0, 0, 0, 1]),
        IpAddress::V6([0, 0, 0, 0, 0, 0xffff, 0x7f00, 0x0001]),
    ] {
        assert!(is_forbidden_ip(&ip), "{ip:?}");
    }
    assert!(!is_forbidden_ip(&IpAddress::V4([8, 8, 8, 8])));
    assert!(!is_forbidden_ip(&IpAddress::V4([100, 128, 0, 1])));
    assert!(!is_forbidden_ip(&IpAddress::V6([0x2a00, 0x1450, 0, 0, 0, 0, 0, 0x200e])));
    assert_eq!(
        judge_host(&Some(vec![IpAddress::V4([8, 8, 8, 8]), IpAddress::V4([10, 0, 0, 1])])).unwrap_err(),
        "Adresa směřuje do lokální sítě, to není povolené"
    );
    assert!(judge_host(&Some(vec![])).is_err());
    assert_eq!(judge_host(&None).unwrap_err(), "Adresa směřuje do lokální sítě, to není povolené");
}

#[test]
fn url_messages() {
    assert_eq!(validate_url("nonsense").unwrap_err(), "Neplatná adresa");
    assert_eq!(validate_url("http://example.com").unwrap_err(), "Adresa musí začínat https://");
    assert_eq!(validate_url("https://example.com:8080/").unwrap_err(), "Povolený port je jen 443 nebo 8443");
    assert_eq!(validate_url("https://printer.LOCAL/x").unwrap_err(), "Lokální adresy nejsou povolené");
    let ok = validate_url("https://Calendar.Example.COM/x.ics").unwrap();
    assert_eq!(ok.host, "calendar.example.com");
    assert_eq!(ok.port, 443);
}

fn fields(summary: &str, uid: &str, rrule: Option<&str>, cancelled: bool) -> EventFields {
    EventFields {
        summary: summary.to_string(),
        uid: uid.to_string(),
        rrule: rrule.map(|r| r.to_string()),
        cancelled,
        dtstart: None,
    }
}

#[test]
fn feed_assembly_from_given_starts() {
    let base = 1704103200;
    let fs = vec![
        fields("B", "b", None, false),
        fields("A\\,x", "a", None, false),
        fields("C", "c", None, true),
        fields("Late", "late", None, false),
        fields("R", "r", Some("FREQ=DAILY;COUNT=3"), true),
        fields("N", "n", None, false),
    ];
    let starts = vec![Some(2000), Some(1000), Some(1500), Some(base + 2 * 86400), Some(base), None];
    let evs = feed_events(&fs, &starts, 0, base + 86400);
    let ids: Vec<&str> = evs.iter().map(|e| e.id.as_str()).collect();
    assert_eq!(ids, vec!["ics:a", "ics:b", "ics:r:1704103200", "ics:r:1704189600"]);
    assert_eq!(evs[0].title, "A,x");
    assert_eq!(evs[2].title, "R");
    assert_eq!(evs[2].occurrence, base);
    assert!(evs.iter().all(|e| e.calendar_id == "ics"));
    assert!(feed_events(&fs, &vec![Some(1)], 0, 10).is_empty());
}

#[test]
fn feed_assembly_caps_at_500() {
    let fs: Vec<EventFields> = (0..700).map(|i| fields("E", &format!("u{i}"), None, false)).collect();
    let starts: Vec<Option<i64>> = (0..700).map(|i| Some(1000 - i)).collect();
    let evs = feed_events(&fs, &starts, 0, 2000);
    assert_eq!(evs.len(), 500);
    assert_eq!(evs[0].start, 501);
    assert_eq!(evs[499].start, 1000);
}
