use ptacek::cmd::{demo_query, runs_from_temporary_location, safe_to_remove, snooze_query};

const BASE: &str = "/Users/nekdo/Library/Application Support";

#[test]
fn nase_slozka_se_smaze() {
    assert!(safe_to_remove("/Users/nekdo/Library/Application Support/Ptacek", Some(BASE)));
}

#[test]
fn cizi_slozky_nikdy() {
    for cesta in [
        "/Users/nekdo/Library/Application Support/Slack",
        "/Users/nekdo/Library/Application Support",
        "/Users/nekdo/Library",
        "/Users/nekdo",
        "/Applications/Ptacek.app",
        "/",
    ] {
        assert!(!safe_to_remove(cesta, Some(BASE)), "{cesta} se nikdy mazat nesmí");
    }
}

#[test]
fn jen_primy_potomek() {
    assert!(!safe_to_remove("/Users/nekdo/Library/Application Support/neco/Ptacek", Some(BASE)));
}

#[test]
fn bez_znameho_zakladu_nemazeme() {
    assert!(!safe_to_remove("/Users/nekdo/Library/Application Support/Ptacek", None));
}

#[test]
fn relativni_cesta_nikdy() {
    assert!(!safe_to_remove("./Ptacek", Some(".")));
}

#[test]
fn trailing_slash_and_dots_are_normalised_like_path() {
    assert!(safe_to_remove("/Users/nekdo/Library/Application Support/./Ptacek/", Some(BASE)));
    assert!(!safe_to_remove("/Users/nekdo/Library/Application Support/../Ptacek", Some(BASE)));
}

#[test]
fn demo_query_keeps_only_safe_mascot_chars() {
    assert_eq!(demo_query(None), "mode=demo&mascot=random");
    assert_eq!(demo_query(Some("bird&x=1".to_string())), "mode=demo&mascot=birdx1");
}

#[test]
fn snooze_query_cleans_and_encodes() {
    assert_eq!(
        snooze_query("Porada\n týmu", "14:00 and much more text", "owl!"),
        "mode=event&mascot=owl&title=Porada%20%20t%C3%BDmu&time=14%3A00%20and%20much%20m"
    );
}

#[test]
fn temporary_locations_are_recognised() {
    assert!(runs_from_temporary_location("/Volumes/Ptacek/Ptacek.app/Contents/MacOS/ptacek"));
    assert!(runs_from_temporary_location(
        "/private/var/folders/x/AppTranslocation/ABC/d/Ptacek.app/Contents/MacOS/ptacek"
    ));
    assert!(!runs_from_temporary_location("/Applications/Ptacek.app/Contents/MacOS/ptacek"));
}
