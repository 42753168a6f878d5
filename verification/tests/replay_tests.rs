use frc_elo::elo::changes;
use frc_elo::models::{Event, Matche};
use frc_elo::replay::{plan, Step};
use frc_elo::tba::last_modified_value;

fn a_match(id: &str, red3: Option<&str>, blue3: Option<&str>) -> Matche {
    Matche {
        id: id.to_string(),
        comp_level: "qm".to_string(),
        match_number: 1,
        set_number: 1,
        event_id: "2017abca".to_string(),
        red_score: 60,
        blue_score: 45,
        red1: "frc1".to_string(),
        red2: "frc2".to_string(),
        red3: red3.map(|s| s.to_string()),
        blue1: "frc4".to_string(),
        blue2: "frc5".to_string(),
        blue3: blue3.map(|s| s.to_string()),
    }
}

fn an_event(id: &str) -> Event {
    Event {
        id: id.to_string(),
        name: id.to_string(),
        event_type: 0,
        official: 1,
        start_date: String::new(),
        week: 1,
    }
}

#[test]
fn the_changes_of_six_robots_cancel() {
    let list = changes(&a_match("2017abca_qm1", Some("frc3"), Some("frc6")));
    let got: Vec<(&str, i8)> = list.iter().map(|c| (c.team.as_str(), c.sign)).collect();
    assert_eq!(
        got,
        vec![("frc1", 1), ("frc2", 1), ("frc3", 1), ("frc4", -1), ("frc5", -1), ("frc6", -1)]
    );
    let total: i32 = list.iter().map(|c| c.sign as i32).sum();
    assert_eq!(total, 0);
}

#[test]
fn a_missing_third_robot_gets_no_change() {
    let list = changes(&a_match("2017abca_qm1", Some("frc3"), None));
    let got: Vec<(&str, i8)> = list.iter().map(|c| (c.team.as_str(), c.sign)).collect();
    assert_eq!(got, vec![("frc1", 1), ("frc2", 1), ("frc3", 1), ("frc4", -1), ("frc5", -1)]);
    let none = changes(&a_match("2017abca_qm1", None, None));
    assert_eq!(none.len(), 4);
    let total: i32 = none.iter().map(|c| c.sign as i32).sum();
    assert_eq!(total, 0);
}

#[test]
fn a_replay_rolls_over_before_the_first_event_of_a_year() {
    let events = vec![
        an_event("2002aaaa"),
        an_event("2002bbbb"),
        an_event("2003aaaa"),
        an_event("2004none"),
        an_event("2004aaaa"),
    ];
    let matches = vec![
        vec![a_match("2002aaaa_qm1", None, None), a_match("2002aaaa_qm2", None, None)],
        vec![
            a_match("2002bbbb_qm1", None, None),
            a_match("2002bbbb_qf1m1", None, None),
            a_match("2002bbbb_qf1m2", None, None),
        ],
        vec![a_match("2003aaaa_qm1", None, None)],
        Vec::new(),
        vec![a_match("2004aaaa_qf1m1", None, None)],
    ];
    let steps = plan(&events, &matches, 2002);
    let expected = vec![
        Step::StartEvent { event: 0 },
        Step::Match { event: 0, index: 0 },
        Step::Match { event: 0, index: 1 },
        Step::FinishEvent { event: 0 },
        Step::StartEvent { event: 1 },
        Step::Match { event: 1, index: 0 },
        Step::FinishEvent { event: 1 },
        Step::Match { event: 1, index: 1 },
        Step::Match { event: 1, index: 2 },
        Step::FinishEvent { event: 1 },
        Step::NewYear,
        Step::StartEvent { event: 2 },
        Step::Match { event: 2, index: 0 },
        Step::FinishEvent { event: 2 },
        Step::NewYear,
        Step::StartEvent { event: 4 },
        Step::FinishEvent { event: 4 },
        Step::Match { event: 4, index: 0 },
        Step::FinishEvent { event: 4 },
    ];
    assert_eq!(steps, expected);
}

#[test]
fn a_replay_of_nothing_has_no_step() {
    assert_eq!(plan(&Vec::new(), &Vec::new(), 2002), Vec::new());
    assert_eq!(plan(&vec![an_event("2002aaaa")], &vec![Vec::new()], 2002), Vec::new());
}

#[test]
fn a_year_turns_once_for_each_event_that_does_not_name_it() {
    let events = vec![an_event("2005aaaa"), an_event("2005bbbb")];
    let matches = vec![
        vec![a_match("2005aaaa_qm1", None, None)],
        vec![a_match("2005bbbb_qm1", None, None)],
    ];
    let steps = plan(&events, &matches, 2002);
    let turns = steps.iter().filter(|s| **s == Step::NewYear).count();
    assert_eq!(turns, 2);
    assert_eq!(steps[0], Step::NewYear);
}

#[test]
fn the_date_of_a_response_follows_the_header_name() {
    assert_eq!(
        last_modified_value("Last-Modified: Tue, 01 Mar 2017 10:00:00 GMT\r\n"),
        Some("Tue, 01 Mar 2017 10:00:00 GMT\r\n")
    );
    assert_eq!(last_modified_value("Last-Modified: "), Some(""));
    assert_eq!(last_modified_value("Last-Modified:"), None);
    assert_eq!(last_modified_value("last-modified: x"), None);
    assert_eq!(last_modified_value("Content-Type: text/html"), None);
    assert_eq!(last_modified_value(" Last-Modified: x"), None);
    assert_eq!(last_modified_value(""), None);
    assert_eq!(last_modified_value("Last-Modified: é"), Some("é"));
}
