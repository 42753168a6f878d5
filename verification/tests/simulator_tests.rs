use frc_elo::models::{Matche, Outcome};
use frc_elo::standings::{Placing, Standings};
use frc_elo::tally::{Tally, TeamTally};
use frc_elo::tba::{ExtraRate, Response, TeamEventRanking, WinLossRecord};

fn a_match(
    number: i32,
    red: [&str; 3],
    blue: [&str; 3],
    red_score: i32,
    blue_score: i32,
) -> Matche {
    Matche {
        id: format!("2017abca_qm{}", number),
        comp_level: "qm".to_string(),
        match_number: number,
        set_number: 1,
        event_id: "2017abca".to_string(),
        red_score,
        blue_score,
        red1: red[0].to_string(),
        red2: red[1].to_string(),
        red3: Some(red[2].to_string()),
        blue1: blue[0].to_string(),
        blue2: blue[1].to_string(),
        blue3: Some(blue[2].to_string()),
    }
}

fn listed(
    key: &str,
    played: usize,
    stats: Vec<usize>,
    wins: usize,
    ties: usize,
    secondary: i64,
) -> TeamEventRanking {
    TeamEventRanking {
        matches_played: played,
        extra_stats: stats,
        record: WinLossRecord { losses: played.saturating_sub(wins + ties), ties, wins },
        team_key: key.to_string(),
        secondary,
    }
}

fn points_of(standings: &Standings, key: &str) -> usize {
    let i = standings.find(key).expect("the team is in the standings");
    standings.teams[i].extra_stats[0]
}

#[test]
fn a_response_is_fresh_only_with_status_200() {
    let fresh = Response { code: 200, data: vec![1], last_modified: String::new() };
    let unchanged = Response { code: 304, data: Vec::new(), last_modified: String::new() };
    let failed = Response { code: 500, data: Vec::new(), last_modified: String::new() };
    assert!(fresh.is_fresh());
    assert!(!unchanged.is_fresh());
    assert!(!failed.is_fresh());
}

#[test]
fn a_record_is_worth_two_per_win_and_one_per_tie() {
    let none = WinLossRecord::new();
    assert_eq!((none.wins, none.losses, none.ties), (0, 0, 0));
    assert_eq!(none.to_usize(), 0);
    assert_eq!(WinLossRecord { losses: 4, ties: 1, wins: 3 }.to_usize(), 7);
}

#[test]
fn a_new_ranking_has_nothing() {
    let mut r = TeamEventRanking::new("frc254");
    assert_eq!(r.key(), "frc254");
    assert_eq!(r.matches_played, 0);
    assert_eq!(r.extra_stats, vec![0]);
    assert_eq!(r.secondary, 0);
    assert_eq!(r.to_usize(), 0);
    assert_eq!(r.extra_prob(), ExtraRate { earned: 0, played: 0 });
}

#[test]
fn a_ranking_counts_matches_and_points() {
    let mut r = TeamEventRanking::new("frc1");
    r.add_win();
    r.add_win();
    r.add_loss();
    r.add_draw();
    r.add_extra();
    assert_eq!(r.matches_played, 4);
    assert_eq!((r.record.wins, r.record.losses, r.record.ties), (2, 1, 1));
    assert_eq!(r.to_usize(), 6);
    assert_eq!(r.extra_stats, vec![6]);
    assert_eq!(r.extra_prob(), ExtraRate { earned: 1, played: 4 });
}

#[test]
fn points_default_to_the_worth_of_the_record() {
    let mut r = listed("frc1", 5, Vec::new(), 2, 1, 0);
    assert_eq!(r.to_usize(), 5);
    assert_eq!(r.extra_stats, vec![5]);
    let mut untouched = listed("frc2", 5, Vec::new(), 2, 1, 0);
    untouched.add_extra();
    assert!(untouched.extra_stats.is_empty());
    untouched.add_loss();
    assert_eq!(untouched.matches_played, 6);
    assert_eq!(untouched.record.losses, 3);
}

#[test]
fn the_bonus_rate_is_clamped() {
    assert_eq!(listed("a", 4, vec![9], 3, 0, 0).extra_prob(), ExtraRate { earned: 3, played: 4 });
    assert_eq!(listed("a", 2, vec![9], 3, 0, 0).extra_prob(), ExtraRate { earned: 2, played: 2 });
    assert_eq!(listed("a", 4, vec![5], 3, 0, 0).extra_prob(), ExtraRate { earned: 0, played: 4 });
    assert_eq!(listed("a", 4, vec![6, 77], 3, 0, 0).extra_prob(), ExtraRate { earned: 0, played: 4 });
}

#[test]
fn the_warm_up_weight_grows_to_the_fourth_match() {
    assert_eq!(ExtraRate { earned: 0, played: 0 }.weighted(), (0, 0));
    assert_eq!(ExtraRate { earned: 1, played: 1 }.weighted(), (1, 4));
    assert_eq!(ExtraRate { earned: 1, played: 2 }.weighted(), (2, 8));
    assert_eq!(ExtraRate { earned: 3, played: 3 }.weighted(), (9, 12));
    assert_eq!(ExtraRate { earned: 2, played: 4 }.weighted(), (8, 16));
    assert_eq!(ExtraRate { earned: 5, played: 10 }.weighted(), (20, 40));
}

#[test]
fn standings_find_or_add_a_team() {
    let mut s = Standings::new();
    assert!(!s.preloaded);
    assert_eq!(s.find("frc1"), None);
    assert_eq!(s.entry("frc1"), 0);
    assert_eq!(s.entry("frc2"), 1);
    assert_eq!(s.entry("frc1"), 0);
    assert_eq!(s.teams.len(), 2);
    assert_eq!(s.find("frc2"), Some(1));
    assert_eq!(s.teams[1].extra_stats, vec![0]);
    assert_eq!(s.extra_rate("frc9"), ExtraRate { earned: 0, played: 0 });
}

#[test]
fn standings_count_results() {
    let mut s = Standings::new();
    s.record("frc1", Outcome::Win);
    s.record("frc2", Outcome::Loss);
    s.record("frc1", Outcome::Tie);
    s.award_extra("frc1");
    s.award_extra("frc3");
    assert_eq!(s.teams.len(), 3);
    assert_eq!(points_of(&s, "frc1"), 4);
    assert_eq!(points_of(&s, "frc2"), 0);
    assert_eq!(points_of(&s, "frc3"), 1);
    assert_eq!(s.teams[0].matches_played, 2);
    assert_eq!(s.teams[0].record.wins, 1);
    assert_eq!(s.teams[0].record.ties, 1);
    assert_eq!(s.teams[1].record.losses, 1);
    assert_eq!(s.teams[2].matches_played, 0);
    assert_eq!(s.extra_rate("frc1"), ExtraRate { earned: 1, played: 2 });
    assert_eq!(s.extra_rate("frc3"), ExtraRate { earned: 0, played: 0 });
    assert!(s.has_room_for(6));
    assert!(!s.has_room_for(usize::MAX));
}

#[test]
fn a_played_match_gives_two_points_for_a_win_and_one_for_a_tie() {
    let mut s = Standings::new();
    s.apply_played(&a_match(1, ["a", "b", "c"], ["d", "e", "f"], 60, 45));
    s.apply_played(&a_match(2, ["a", "d", "x"], ["b", "e", "y"], 30, 30));
    assert_eq!(points_of(&s, "a"), 3);
    assert_eq!(points_of(&s, "b"), 3);
    assert_eq!(points_of(&s, "c"), 2);
    assert_eq!(points_of(&s, "d"), 1);
    assert_eq!(points_of(&s, "e"), 1);
    assert_eq!(points_of(&s, "f"), 0);
    assert_eq!(points_of(&s, "x"), 1);
    assert_eq!(points_of(&s, "y"), 1);
    let keys: Vec<&str> = s.teams.iter().map(|t| t.team_key.as_str()).collect();
    assert_eq!(keys, vec!["a", "b", "c", "d", "e", "f", "x", "y"]);
}

#[test]
fn preloaded_standings_hold_the_played_matches_already() {
    let mut s = Standings::from_snapshot(vec![
        listed("a", 1, vec![2], 1, 0, 10),
        listed("b", 1, Vec::new(), 0, 1, 20),
        listed("a", 2, vec![5], 2, 0, 30),
    ]);
    assert!(s.preloaded);
    assert_eq!(s.teams.len(), 2);
    assert_eq!(points_of(&s, "a"), 5);
    assert_eq!(s.teams[0].secondary, 30);
    assert_eq!(points_of(&s, "b"), 1);
    s.settle_played(&a_match(1, ["a", "b", "c"], ["d", "e", "f"], 60, 45));
    assert_eq!(s.teams.len(), 2);
    assert_eq!(points_of(&s, "a"), 5);
    s.apply_simulated(&a_match(2, ["a", "b", "c"], ["d", "e", "f"], -1, -1), false);
    assert_eq!(s.teams.len(), 6);
    assert_eq!(points_of(&s, "a"), 5);
    assert_eq!(points_of(&s, "d"), 2);
    s.apply_played(&a_match(3, ["a", "b", "c"], ["d", "e", "f"], 60, 45));
    assert_eq!(points_of(&s, "a"), 7);
    assert_eq!(points_of(&s, "d"), 2);
    let mut fresh = Standings::new();
    fresh.settle_played(&a_match(1, ["a", "b", "c"], ["d", "e", "f"], 10, 45));
    assert_eq!(points_of(&fresh, "a"), 0);
    assert_eq!(points_of(&fresh, "f"), 2);
    let empty = Standings::from_snapshot(Vec::new());
    assert!(!empty.preloaded);
    assert!(empty.teams.is_empty());
}

#[test]
fn a_simulated_match_gives_the_winners_two_points() {
    let mut s = Standings::new();
    s.apply_simulated(&a_match(1, ["a", "b", "c"], ["d", "e", "f"], -1, -1), true);
    s.apply_simulated(&a_match(2, ["a", "e", "f"], ["b", "c", "d"], -1, -1), false);
    s.award_alliance(&vec!["a".to_string(), "e".to_string()]);
    assert_eq!(points_of(&s, "a"), 3);
    assert_eq!(points_of(&s, "b"), 4);
    assert_eq!(points_of(&s, "c"), 4);
    assert_eq!(points_of(&s, "d"), 2);
    assert_eq!(points_of(&s, "e"), 1);
    assert_eq!(points_of(&s, "f"), 0);
    for t in &s.teams {
        assert_eq!(t.matches_played, 2);
    }
}

#[test]
fn teams_are_ranked_by_points_then_by_the_secondary_statistic() {
    let s = Standings::from_snapshot(vec![
        listed("a", 3, vec![4], 2, 0, 10),
        listed("b", 3, vec![6], 3, 0, 5),
        listed("c", 3, vec![4], 2, 0, 70),
        listed("d", 3, vec![0], 0, 0, 99),
        listed("e", 3, vec![4], 2, 0, 10),
    ]);
    let order = s.ranked();
    let got: Vec<(&str, usize)> = order.iter().map(|p| (p.key.as_str(), p.points)).collect();
    assert_eq!(got, vec![("b", 6), ("c", 4), ("a", 4), ("e", 4), ("d", 0)]);
}

#[test]
fn one_run_of_six_teams_in_three_matches_has_one_winner() {
    let schedule = vec![
        a_match(1, ["a", "b", "c"], ["d", "e", "f"], -1, -1),
        a_match(2, ["a", "d", "e"], ["b", "c", "f"], -1, -1),
        a_match(3, ["a", "f", "b"], ["c", "d", "e"], -1, -1),
    ];
    let draws = [true, false, true];
    let mut standings = Standings::new();
    for (m, red_won) in schedule.iter().zip(draws.iter()) {
        standings.apply_simulated(m, *red_won);
    }
    let mut tally = Tally::new();
    tally.count_run(&standings);
    assert_eq!(tally.trials, 1);
    assert_eq!(tally.teams.len(), 6);
    let firsts: Vec<&TeamTally> = tally.teams.iter().filter(|t| t.top1 == 1).collect();
    assert_eq!(firsts.len(), 1);
    let most = tally.teams.iter().map(|t| t.points).max().unwrap();
    assert_eq!(firsts[0].points, most);
    assert_eq!(firsts[0].key, "b");
    assert_eq!(firsts[0].points, 6);
    assert_eq!(firsts[0].rank_sum, 1);
    let ranks: u128 = tally.teams.iter().map(|t| t.rank_sum).sum();
    assert_eq!(ranks, 21);
    for t in &tally.teams {
        assert_eq!(t.top8, 1);
    }
}

#[test]
fn a_tally_adds_up_runs() {
    let order = |keys: &[(&str, usize)]| -> Vec<Placing> {
        keys.iter().map(|(k, p)| Placing { key: k.to_string(), points: *p, secondary: 0 }).collect()
    };
    let names = ["a", "b", "c", "d", "e", "f", "g", "h", "i", "j"];
    let mut tally = Tally::new();
    let first: Vec<(&str, usize)> = names.iter().map(|n| (*n, 20)).collect();
    tally.add_trial(&order(&first));
    let second: Vec<(&str, usize)> = names.iter().rev().map(|n| (*n, 7)).collect();
    tally.add_trial(&order(&second));
    tally.add_trial(&order(&[("b", 3), ("a", 1)]));
    assert_eq!(tally.trials, 3);
    assert_eq!(tally.teams.len(), 10);
    let total_firsts: usize = tally.teams.iter().map(|t| t.top1).sum();
    assert_eq!(total_firsts, tally.trials);
    for t in &tally.teams {
        assert!(t.top1 <= t.top8 && t.top8 <= tally.trials);
    }
    let a = &tally.teams[0];
    assert_eq!((a.key.as_str(), a.points, a.rank_sum, a.top1, a.top8), ("a", 28, 13, 1, 2));
    let b = &tally.teams[1];
    assert_eq!((b.key.as_str(), b.points, b.rank_sum, b.top1, b.top8), ("b", 30, 12, 1, 2));
    let j = &tally.teams[9];
    assert_eq!((j.key.as_str(), j.points, j.rank_sum, j.top1, j.top8), ("j", 27, 11, 1, 1));
    let i = &tally.teams[8];
    assert_eq!((i.key.as_str(), i.points, i.rank_sum, i.top1, i.top8), ("i", 27, 11, 0, 1));
    let table = tally.into_table();
    let got: Vec<&str> = table.iter().map(|t| t.key.as_str()).collect();
    assert_eq!(got, vec!["b", "a", "c", "d", "e", "f", "g", "h", "i", "j"]);
}

#[test]
fn standings_tell_when_a_counter_is_full() {
    let mut s = Standings::from_snapshot(vec![listed("a", 3, vec![usize::MAX - 17], 1, 0, 0)]);
    assert!(s.has_room_for(0));
    assert!(s.has_room_for(5));
    assert!(!s.has_room_for(6));
    s.insert(listed("b", usize::MAX - 2, vec![0], 0, 0, 0));
    assert!(s.has_room_for(2));
    assert!(!s.has_room_for(3));
    assert_eq!(s.teams.len(), 2);
}

#[test]
fn a_ranking_put_in_twice_is_kept_once() {
    let mut s = Standings::new();
    s.insert(listed("a", 1, vec![2], 1, 0, 0));
    s.insert(listed("b", 1, Vec::new(), 1, 1, 0));
    s.insert(listed("a", 2, vec![9, 4], 2, 0, 3));
    assert!(!s.preloaded);
    assert_eq!(s.teams.len(), 2);
    assert_eq!(s.teams[0].team_key, "a");
    assert_eq!(s.teams[0].extra_stats, vec![9, 4]);
    assert_eq!(s.teams[0].matches_played, 2);
    assert_eq!(s.teams[0].secondary, 3);
    assert_eq!(s.teams[1].extra_stats, vec![3]);
}

#[test]
fn a_team_listed_twice_in_an_alliance_is_counted_twice() {
    let mut s = Standings::new();
    s.record_alliance(&vec!["a".to_string(), "b".to_string(), "a".to_string()], Outcome::Win);
    assert_eq!(s.teams.len(), 2);
    assert_eq!(points_of(&s, "a"), 4);
    assert_eq!(s.teams[0].matches_played, 2);
    assert_eq!(points_of(&s, "b"), 2);
    s.record_alliance(&Vec::new(), Outcome::Loss);
    assert_eq!(s.teams.len(), 2);
}

#[test]
fn an_empty_tally_has_an_empty_table() {
    let tally = Tally::new();
    assert_eq!(tally.trials, 0);
    assert!(tally.teams.is_empty());
    assert!(tally.into_table().is_empty());
}
