use frc_elo::elo::{
    score_std_tenths, season_spread, update_divisor, ActiveTeams, Ledger, Scorecard, KNOWN_YEARS,
    NEW_AVG,
};
use frc_elo::models::Matche;
use frc_elo::glicko::{RatingPeriod, GAP_WEEKS};
use frc_elo::models::Outcome;
use frc_elo::season::Season;

#[test]
fn score_spreads_are_known_for_sixteen_years() {
    let expected = [176, 509, 456, 246, 284, 462, 244, 210, 27, 284, 155, 311, 493, 332, 470, 950];
    for (i, tenths) in expected.iter().enumerate() {
        assert_eq!(score_std_tenths(i), Some(*tenths));
    }
    assert_eq!(KNOWN_YEARS, 16);
    assert_eq!(score_std_tenths(16), None);
    assert_eq!(score_std_tenths(usize::MAX), None);
    assert_eq!(NEW_AVG, 150);
}

#[test]
fn the_spread_of_a_season_is_looked_up_by_its_year() {
    assert_eq!(season_spread(&Season { start_year: 2002, current_year: 2002 }), Some(176));
    assert_eq!(season_spread(&Season { start_year: 2002, current_year: 2017 }), Some(950));
    assert_eq!(season_spread(&Season { start_year: 2002, current_year: 2018 }), None);
    assert_eq!(season_spread(&Season { start_year: 2002, current_year: 2001 }), None);
}

#[test]
fn playoff_matches_count_by_a_third() {
    assert_eq!(update_divisor("qm"), 1);
    assert_eq!(update_divisor("qf"), 3);
    assert_eq!(update_divisor("sf"), 3);
    assert_eq!(update_divisor("f"), 3);
    assert_eq!(update_divisor(""), 3);
}

#[test]
fn active_teams_are_marked_by_number() {
    let mut teams = ActiveTeams::new(10000);
    assert_eq!(teams.flags.len(), 10000);
    assert!(!teams.is_active(254));
    assert!(teams.mark(254));
    assert!(teams.is_active(254));
    assert!(!teams.is_active(255));
    assert!(teams.mark(254));
    assert!(teams.is_active(254));
    assert!(!teams.mark(10000));
    assert!(!teams.is_active(10000));
    assert!(teams.mark(9999));
    assert!(teams.is_active(9999));
    assert!(teams.mark(0));
    assert!(teams.is_active(0));
}

#[test]
fn a_scorecard_passes_over_ties() {
    let mut card = Scorecard::new();
    assert!(card.add(Outcome::Win, true));
    assert!(card.add(Outcome::Loss, false));
    assert!(!card.add(Outcome::Tie, true));
    assert!(card.add(Outcome::Loss, true));
    assert_eq!(card.total, 3);
    assert_eq!(card.wins_correct, 2);
}

#[test]
fn a_rating_period_holds_results_until_it_closes() {
    let mut period: RatingPeriod<(i32, i32)> = RatingPeriod::new();
    assert_eq!(period.last_week, 0);
    assert!(period.results.is_empty() && period.opponents.is_empty());
    period.push(Outcome::Win, (10, 350));
    period.push(Outcome::Tie, (-5, 200));
    assert_eq!(period.results, vec![Outcome::Win, Outcome::Tie]);
    assert_eq!(period.opponents, vec![(10, 350), (-5, 200)]);
    period.close();
    assert!(period.results.is_empty());
    assert!(period.opponents.is_empty());
    assert_eq!(period.last_week, 0);
}

#[test]
fn weeks_pass_between_events() {
    let mut period: RatingPeriod<u8> = RatingPeriod::new();
    assert_eq!(period.start_event(3), Some(3));
    assert_eq!(period.last_week, 3);
    assert_eq!(period.start_event(3), None);
    assert_eq!(period.last_week, 3);
    assert_eq!(period.start_event(2), None);
    assert_eq!(period.last_week, 3);
    assert_eq!(period.start_event(7), Some(4));
    assert_eq!(period.last_week, 7);
    assert_eq!(period.new_year(), 12);
    assert_eq!(GAP_WEEKS, 12);
    assert_eq!(period.last_week, 0);
    period.last_week = i32::MIN;
    assert_eq!(period.start_event(i32::MAX), Some(u32::MAX));
    assert_eq!(period.last_week, i32::MAX);
}

fn scored(id: &str, red_score: i32, blue_score: i32) -> Matche {
    Matche {
        id: id.to_string(),
        comp_level: "qm".to_string(),
        match_number: 1,
        set_number: 1,
        event_id: String::new(),
        red_score,
        blue_score,
        red1: "frc1".to_string(),
        red2: "frc2".to_string(),
        red3: None,
        blue1: "frc4".to_string(),
        blue2: "frc5".to_string(),
        blue3: None,
    }
}

#[test]
fn a_ledger_marks_teams_only_in_the_latest_year() {
    let mut ledger = Ledger::new(2002, 2003, 2003);
    assert_eq!(ledger.season.current_year, 2002);
    assert!(ledger.note_update("frc254"));
    assert!(ledger.note_update("nobody"));
    assert!(!ledger.active_teams.is_active(254));
    ledger.season.new_year();
    assert!(ledger.note_update("frc254"));
    assert!(ledger.active_teams.is_active(254));
    assert!(!ledger.note_update("nobody"));
    assert!(!ledger.note_update("frc10000"));
    assert!(!ledger.active_teams.is_active(10000));
    assert!(ledger.note_update("frc9999"));
    assert!(ledger.active_teams.is_active(9999));
}

#[test]
fn a_ledger_checks_the_predictions_of_one_year() {
    let mut ledger = Ledger::new(2002, 2017, 2017);
    assert!(!ledger.note_prediction(&scored("2016abca_qm1", 10, 5), true));
    assert!(ledger.note_prediction(&scored("2017abca_qm1", 10, 5), true));
    assert!(ledger.note_prediction(&scored("2017abca_qm2", 3, 5), false));
    assert!(!ledger.note_prediction(&scored("2017abca_qm3", 5, 5), true));
    assert_eq!(ledger.card.total, 2);
    assert_eq!(ledger.card.wins_correct, 1);
}
