use ptacek::calendar::{CalEvent, CalInfo};
use ptacek::service::{
    event_still_valid, health, list_calendars, request_access, unavailable_selection, CalendarHealth, EventValidity,
    Recovery, Reply, ResetBudget, ServiceState,
};

#[test]
fn reset_budget_dodrzi_minimalni_rozestup() {
    let mut b = ResetBudget::new();
    assert!(b.allow(1000));
    assert!(!b.allow(1030), "reset dřív než za 60 s neprojde");
    assert!(b.allow(1061));
}

#[test]
fn reset_budget_strop_pet_za_hodinu() {
    let mut b = ResetBudget::new();
    let mut t = 1000;
    for _ in 0..5 {
        assert!(b.allow(t));
        t += 61;
    }
    assert!(!b.allow(t), "šestý reset v hodině neprojde");
    assert!(b.allow(t + 3600), "nové okno = nový rozpočet");
}

fn cal(id: &str) -> CalInfo {
    CalInfo { id: id.to_string(), title: id.to_string(), kind: "normal".to_string() }
}

#[test]
fn empty_list_is_truth_only_for_a_fresh_process() {
    let mut s = ServiceState::new("authorized".to_string());
    // fresh process: the first empty read asks for one reset
    assert!(matches!(s.list_first("authorized".to_string(), 0, 5000), Recovery::ResetAndRetry));
    // confirmed twice: an empty system
    assert_eq!(s.list_retry("authorized".to_string(), 0, 5000), Ok(()));
    assert_eq!(s.health.last_success, Some(5000));
    // calendars seen, then gone: an outage, not an empty calendar
    assert!(matches!(s.list_first("authorized".to_string(), 3, 6000), Recovery::Done(Ok(()))));
    assert_eq!(s.max_cals_seen, 3);
    assert!(matches!(s.list_first("authorized".to_string(), 0, 6010), Recovery::ResetAndRetry));
    assert_eq!(s.list_retry("authorized".to_string(), 0, 6010), Err("service-unavailable".to_string()));
    assert_eq!(s.health.last_error, Some("service-unavailable".to_string()));
    // the budget is spent for the next minute: no reset, straight to the verdict
    assert!(matches!(s.list_first("authorized".to_string(), 0, 6020), Recovery::Done(Err(_))));
    assert_eq!(s.health.consecutive_failures, 2);
}

#[test]
fn no_permission_is_a_failure() {
    let mut s = ServiceState::new("denied".to_string());
    match s.list_first("denied".to_string(), 0, 10) {
        Recovery::Done(Err(e)) => assert_eq!(e, "no-permission"),
        _ => panic!("expected an error"),
    }
    assert_eq!(s.health.status, "denied");
}

#[test]
fn fetch_after_calendars_vanished_resets_then_fails() {
    let mut s = ServiceState::new("authorized".to_string());
    s.success("authorized".to_string(), 2, 100);
    assert!(matches!(s.fetch_first("authorized".to_string(), false, 0, 200), Recovery::ResetAndRetry));
    assert_eq!(s.fetch_retry("authorized".to_string(), 0, 200), Err("service-unavailable".to_string()));
    // an empty read with calendars visible is legitimate
    assert!(matches!(s.fetch_first("authorized".to_string(), false, 2, 300), Recovery::Done(Ok(()))));
}

fn event(id: &str, start: i64) -> CalEvent {
    CalEvent {
        id: id.to_string(),
        title: "A".to_string(),
        start,
        calendar_id: "c".to_string(),
        stable_id: id.to_string(),
        occurrence: start,
    }
}

#[test]
fn last_check_verdicts() {
    assert_eq!(event_still_valid("ics:abc", 10, None), EventValidity::Valid);
    assert_eq!(event_still_valid("e1", 10, None), EventValidity::Unknown);
    let read: Result<Vec<CalEvent>, String> = Ok(vec![event("e1", 10)]);
    assert_eq!(event_still_valid("e1", 10, Some(&read)), EventValidity::Valid);
    assert_eq!(event_still_valid("e1", 11, Some(&read)), EventValidity::Gone);
    let failed: Result<Vec<CalEvent>, String> = Err("timeout".to_string());
    assert_eq!(event_still_valid("e1", 10, Some(&failed)), EventValidity::Unknown);
}

#[test]
fn replies_from_the_service() {
    assert!(request_access(Reply::Answer(true)));
    assert!(!request_access(Reply::TimedOut));
    assert!(!request_access(Reply::NotSent));
    assert_eq!(list_calendars(Reply::NotSent).unwrap_err(), "service-unavailable");
    assert_eq!(list_calendars(Reply::TimedOut).unwrap_err(), "timeout");
    assert_eq!(list_calendars(Reply::Answer(Ok(vec![cal("a")]))).unwrap().len(), 1);
    let h = health(Reply::TimedOut, "denied".to_string());
    assert_eq!(h.status, "denied");
    assert_eq!(h.calendars, 0);
    let answered = CalendarHealth::initial("authorized".to_string());
    assert_eq!(health(Reply::Answer(answered), "x".to_string()).status, "authorized");
}

#[test]
fn unavailable_selection_counts_missing_ids() {
    let selected = vec!["a".to_string(), "b".to_string(), "z".to_string()];
    assert_eq!(unavailable_selection(&selected, &vec![cal("a"), cal("c")]), Some(2));
    assert_eq!(unavailable_selection(&Vec::new(), &vec![cal("a")]), None);
    assert_eq!(unavailable_selection(&selected, &Vec::new()), None);
}
