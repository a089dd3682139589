use ptacek::calendar::CalEvent;
use ptacek::scheduler::{percent_encode, rebuild_queue, FlybyJob, FlybyQueue, Source};
use ptacek::service::EventValidity;
use ptacek::tick::{
    flyby_query, is_muted, lead_seconds, parse_int, poll_due, prune_fired, CheckOutcome, PollSignal, TickState,
};

fn ev(id: &str, start: i64, title: &str) -> CalEvent {
    CalEvent {
        stable_id: id.to_string(),
        occurrence: start,
        id: id.to_string(),
        title: title.to_string(),
        start,
        calendar_id: "test".to_string(),
    }
}

fn jobs(q: &FlybyQueue) -> Vec<FlybyJob> {
    q.jobs()
}

#[test]
fn vypadek_ics_necha_predchozi_ics_joby() {
    let prev = rebuild_queue(&FlybyQueue::new(), Ok(vec![]), Some(Ok(vec![ev("ics:a", 1000, "Call")])), 60);
    assert_eq!(jobs(&prev).len(), 1);
    let q = rebuild_queue(&prev, Ok(vec![]), Some(Err("timeout".into())), 60);
    assert_eq!(jobs(&q).len(), 1, "výpadek sítě nesmí zahodit schůzku");
}

#[test]
fn uspesne_prazdne_ics_frontu_vycisti() {
    let prev =
        rebuild_queue(&FlybyQueue::new(), Ok(vec![]), Some(Ok(vec![ev("ics:a", 1000, "Zrušený call")])), 60);
    let q = rebuild_queue(&prev, Ok(vec![]), Some(Ok(Vec::new())), 60);
    assert!(jobs(&q).is_empty(), "smazaná ICS událost musí z fronty pryč");
}

#[test]
fn chyba_eventkitu_zachova_predchozi_eventkit_joby() {
    let prev = rebuild_queue(&FlybyQueue::new(), Ok(vec![ev("e1", 1000, "Porada"), ev("e2", 2000, "Standup")]), None, 60);
    assert_eq!(jobs(&prev).len(), 2);
    let q = rebuild_queue(&prev, Err("service-unavailable".into()), None, 60);
    assert_eq!(jobs(&q).len(), 2, "výpadek EventKitu nesmí zahodit naplánované schůzky");
}

#[test]
fn uspesne_prazdny_eventkit_frontu_vycisti() {
    let prev = rebuild_queue(&FlybyQueue::new(), Ok(vec![ev("e1", 1000, "A")]), None, 60);
    let q = rebuild_queue(&prev, Ok(vec![]), None, 60);
    assert!(jobs(&q).is_empty(), "potvrzené prázdno = smazaná schůzka musí z fronty");
}

#[test]
fn ics_funguje_i_pri_degradovanem_eventkitu() {
    let q = rebuild_queue(
        &FlybyQueue::new(),
        Err("service-unavailable".into()),
        Some(Ok(vec![ev("ics:a", 1000, "Call")])),
        60,
    );
    let j = jobs(&q);
    assert_eq!(j.len(), 1, "ICS zdroj jede nezávisle na EventKitu");
    assert_eq!(j[0].source, Source::Ics);
}

#[test]
fn dve_schuzky_stejny_nazev_i_cas_prezijou_v_ramci_zdroje() {
    let q = rebuild_queue(&FlybyQueue::new(), Ok(vec![ev("e1", 1000, "Standup"), ev("e2", 1000, "Standup")]), None, 60);
    assert_eq!(jobs(&q).len(), 2, "různé schůzky nesmí splynout kvůli názvu");
}

#[test]
fn stejna_schuzka_z_obou_zdroju_leti_jednou() {
    let q = rebuild_queue(
        &FlybyQueue::new(),
        Ok(vec![ev("ekit-1", 1000, "Porada")]),
        Some(Ok(vec![ev("ics:x", 1000, "Porada")])),
        60,
    );
    let j = jobs(&q);
    assert_eq!(j.len(), 1);
    assert_eq!(j[0].source, Source::Ekit, "ICS ustupuje EventKitu");
}

#[test]
fn carried_feed_job_yields_to_eventkit() {
    let prev = rebuild_queue(&FlybyQueue::new(), Ok(vec![]), Some(Ok(vec![ev("ics:x", 1000, "Porada")])), 60);
    assert_eq!(jobs(&prev).len(), 1);
    let q = rebuild_queue(&prev, Ok(vec![ev("ekit-1", 1000, "Porada")]), Some(Err("timeout".into())), 60);
    let j = jobs(&q);
    assert_eq!(j.len(), 1, "a meeting seen both ways flies once");
    assert_eq!(j[0].source, Source::Ekit);
}

#[test]
fn carried_eventkit_job_makes_the_feed_yield() {
    let prev = rebuild_queue(&FlybyQueue::new(), Ok(vec![ev("ekit-1", 1000, "Porada")]), None, 60);
    let q = rebuild_queue(&prev, Err("service-unavailable".into()), Some(Ok(vec![ev("ics:x", 1000, "Porada")])), 60);
    let j = jobs(&q);
    assert_eq!(j.len(), 1);
    assert_eq!(j[0].source, Source::Ekit);
}

#[test]
fn fire_at_respektuje_lead() {
    let q = rebuild_queue(&FlybyQueue::new(), Ok(vec![ev("e1", 1000, "A")]), None, 300);
    assert_eq!(q.first_fire_at().unwrap(), 700);
}

#[test]
fn duplicitni_zaznam_teze_instance_se_slouci() {
    let q = rebuild_queue(&FlybyQueue::new(), Ok(vec![ev("e1", 1000, "A"), ev("e1", 1000, "A")]), None, 60);
    assert_eq!(jobs(&q).len(), 1);
}

#[test]
fn request_poll_je_idempotentni_debounce() {
    let mut signal = PollSignal::new();
    signal.request_poll();
    signal.request_poll();
    signal.request_poll();
    assert!(signal.take_poll());
    assert!(!signal.take_poll(), "druhý swap už nic nemá");
}

#[test]
fn request_poll_now_also_wakes_the_loop() {
    let mut signal = PollSignal::new();
    signal.request_poll_now();
    assert!(signal.take_wake());
    assert!(!signal.take_wake());
    assert!(signal.take_poll());
}

#[test]
fn queue_keeps_flying_order() {
    let q = rebuild_queue(
        &FlybyQueue::new(),
        Ok(vec![ev("late", 3000, "L"), ev("early", 1000, "E"), ev("mid", 2000, "M")]),
        None,
        60,
    );
    let keys: Vec<String> = jobs(&q).into_iter().map(|j| j.key).collect();
    assert_eq!(keys, vec!["early@1000", "mid@2000", "late@3000"]);
}

#[test]
fn poll_interval_and_clock_going_back() {
    assert_eq!(poll_due(0, 1000, false), (1000, true));
    assert_eq!(poll_due(1000, 1200, false), (1000, false));
    assert_eq!(poll_due(1000, 1300, false), (1300, true));
    assert_eq!(poll_due(1000, 1001, true), (1001, true));
    // the clock was set back: polling resumes at once
    assert_eq!(poll_due(5000, 1000, false), (1000, true));
}

#[test]
fn lead_is_capped_at_an_hour() {
    assert_eq!(lead_seconds(2), 120);
    assert_eq!(lead_seconds(60), 3600);
    assert_eq!(lead_seconds(99999), 3600);
}

#[test]
fn mute_is_in_force_only_until_its_end() {
    assert!(is_muted(Some(2000), 1000));
    assert!(!is_muted(Some(1000), 1000));
    assert!(!is_muted(None, 1000));
}

#[test]
fn integers_parse_like_std() {
    let p = |s: &str| parse_int(&s.chars().collect());
    assert_eq!(p("1000"), Some(1000));
    assert_eq!(p("-42"), Some(-42));
    assert_eq!(p("+7"), Some(7));
    assert_eq!(p("-9223372036854775808"), Some(i64::MIN));
    assert_eq!(p("9223372036854775808"), None);
    assert_eq!(p(""), None);
    assert_eq!(p("-"), None);
    assert_eq!(p("12a"), None);
}

#[test]
fn fired_keys_are_forgotten_after_a_day() {
    let fired = vec!["e1@1000".to_string(), "e2@90000".to_string(), "broken".to_string(), "a@b@95000".to_string()];
    let kept = prune_fired(&fired, 100000);
    assert_eq!(kept, vec!["e2@90000".to_string(), "a@b@95000".to_string()]);
}

fn state_with(events: Vec<CalEvent>, minutes: u32) -> TickState {
    let mut st = TickState::new();
    st.apply_poll(Ok(events), None, minutes, 0);
    st
}

#[test]
fn a_flyby_flies_once() {
    let mut st = state_with(vec![ev("e1", 1000, "A")], 2);
    assert!(st.next_due(800).is_none(), "not due before start - lead");
    let job = st.next_due(900).expect("due");
    assert_eq!(job.key, "e1@1000");
    assert_eq!(st.after_check(&job.key, EventValidity::Valid), CheckOutcome::Fly);
    st.after_open(&job.key, true);
    assert!(st.next_due(910).is_none(), "a key flies at most once");
}

#[test]
fn failed_window_is_tried_again() {
    let mut st = state_with(vec![ev("e1", 1000, "A")], 2);
    let job = st.next_due(900).unwrap();
    st.after_open(&job.key, false);
    assert_eq!(st.next_due(915).unwrap().key, "e1@1000");
}

#[test]
fn late_meetings_are_dropped_quietly() {
    let mut st = state_with(vec![ev("e1", 1000, "A"), ev("e2", 5000, "B")], 2);
    assert!(st.next_due(1060).is_none());
    assert_eq!(st.fired, vec!["e1@1000".to_string()]);
}

#[test]
fn unknown_waits_twice_then_flies() {
    let mut st = state_with(vec![ev("e1", 1000, "A")], 2);
    let key = st.next_due(900).unwrap().key;
    assert_eq!(st.after_check(&key, EventValidity::Unknown), CheckOutcome::Wait);
    assert_eq!(st.after_check(&key, EventValidity::Unknown), CheckOutcome::Wait);
    assert_eq!(st.after_check(&key, EventValidity::Unknown), CheckOutcome::Fly);
}

#[test]
fn gone_meeting_never_flies() {
    let mut st = state_with(vec![ev("e1", 1000, "A"), ev("e2", 1000, "B")], 2);
    let first = st.next_due(900).unwrap();
    assert_eq!(st.after_check(&first.key, EventValidity::Gone), CheckOutcome::Skip);
    let second = st.next_due(900).unwrap();
    assert_eq!(second.key, "e2@1000");
}

#[test]
fn poll_forgets_old_keys_and_their_retries() {
    let mut st = state_with(vec![ev("e1", 1000, "A")], 2);
    let key = st.next_due(900).unwrap().key;
    st.after_check(&key, EventValidity::Unknown);
    st.after_open(&key, true);
    st.apply_poll(Ok(vec![]), None, 2, 2000);
    assert_eq!(st.fired, vec!["e1@1000".to_string()]);
    assert!(st.retries.is_empty());
    st.apply_poll(Ok(vec![]), None, 2, 1000 + 86400);
    assert!(st.fired.is_empty());
}

#[test]
fn flyby_query_encodes_tidy_and_full_titles() {
    let q = flyby_query("Intro | X mezi X a Jan Novák", "cs", "bird!", "14:00");
    assert_eq!(
        q,
        "mode=event&mascot=bird&title=Intro%20%C2%B7%20Jan%20Nov%C3%A1k&full=Intro%20%7C%20X%20mezi%20X%20a%20Jan%20Nov%C3%A1k&time=14:00"
    );
    let blank = flyby_query("   ", "en", "owl", "09:30");
    assert_eq!(blank, "mode=event&mascot=owl&title=Meeting&full=Meeting&time=09:30");
    let blank_cs = flyby_query("", "cs", "owl", "09:30");
    assert_eq!(blank_cs, format!("mode=event&mascot=owl&title={0}&full={0}&time=09:30", percent_encode("Schůzka")));
}

#[test]
fn percent_encode_exact_values() {
    assert_eq!(percent_encode("a-Z_9.~"), "a-Z_9.~");
    assert_eq!(percent_encode("Schůzka 14:00"), "Sch%C5%AFzka%2014%3A00");
}

#[test]
fn a_tick_opens_at_most_one_flyby() {
    // two meetings due at once: one tick yields one of them, the next tick
    // (after it flew) the other
    let mut st = state_with(vec![ev("e1", 1000, "A"), ev("e2", 1000, "B")], 2);
    let first = st.run_tick(900, None, false, |_| EventValidity::Valid).expect("a flyby");
    assert_eq!(first.key, "e1@1000");
    st.after_open(&first.key, true);
    let second = st.run_tick(905, None, false, |_| EventValidity::Valid).expect("the other one");
    assert_eq!(second.key, "e2@1000");
    st.after_open(&second.key, true);
    assert!(st.run_tick(910, None, false, |_| EventValidity::Valid).is_none());
}

#[test]
fn a_tick_passes_over_gone_meetings_and_waits_on_unknown() {
    let mut st = state_with(vec![ev("e1", 1000, "A"), ev("e2", 1000, "B")], 2);
    let job = st.run_tick(900, None, false, |j| if j.key == "e1@1000" { EventValidity::Gone } else { EventValidity::Valid });
    assert_eq!(job.unwrap().key, "e2@1000");
    assert_eq!(st.fired, vec!["e1@1000".to_string()]);
    let mut st = state_with(vec![ev("e1", 1000, "A")], 2);
    assert!(st.run_tick(900, None, false, |_| EventValidity::Unknown).is_none());
    assert!(st.run_tick(915, None, false, |_| EventValidity::Unknown).is_none());
    assert_eq!(st.run_tick(930, None, false, |_| EventValidity::Unknown).unwrap().key, "e1@1000");
}

#[test]
fn no_flyby_while_muted_or_an_overlay_is_open() {
    let mut st = state_with(vec![ev("e1", 1000, "A")], 2);
    assert!(st.run_tick(900, Some(950), false, |_| EventValidity::Valid).is_none());
    assert!(st.run_tick(900, None, true, |_| EventValidity::Valid).is_none());
    assert!(st.fired.is_empty());
    assert_eq!(st.run_tick(960, Some(950), false, |_| EventValidity::Valid).unwrap().key, "e1@1000");
}
