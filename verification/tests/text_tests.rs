use frc_elo::elo::team_number;
use frc_elo::season::{in_year, is_playoff_opener, Season};
use frc_elo::text::{
    chars_of, comes_first, contains, decimal_chars, ends_with, found_at, read_number, text_equal,
};

fn cs(s: &str) -> Vec<char> {
    s.chars().collect()
}

#[test]
fn chars_and_equality() {
    assert_eq!(chars_of("frc254"), cs("frc254"));
    assert_eq!(chars_of(""), Vec::<char>::new());
    assert_eq!(chars_of("é1"), vec!['é', '1']);
    assert!(text_equal("qm", "qm"));
    assert!(!text_equal("qm", "qf"));
    assert!(!text_equal("qm", "q"));
    assert!(text_equal("", ""));
}

#[test]
fn dictionary_order() {
    assert!(comes_first(&cs("2017-03-01"), &cs("2017-03-08")));
    assert!(!comes_first(&cs("2017-03-08"), &cs("2017-03-01")));
    assert!(comes_first(&cs("abc"), &cs("abcd")));
    assert!(!comes_first(&cs("abcd"), &cs("abc")));
    assert!(!comes_first(&cs("abc"), &cs("abc")));
    assert!(comes_first(&cs(""), &cs("a")));
    assert!(!comes_first(&cs(""), &cs("")));
    assert!(comes_first(&cs("Z"), &cs("a")));
}

#[test]
fn search() {
    assert!(contains(&cs("2017abca_qm1"), &cs("2017")));
    assert!(contains(&cs("x2017"), &cs("2017")));
    assert!(!contains(&cs("2016abca_qm1"), &cs("2017")));
    assert!(!contains(&cs("201"), &cs("2017")));
    assert!(contains(&cs("abc"), &cs("")));
    assert!(contains(&cs(""), &cs("")));
    assert!(found_at(&cs("abcabc"), &cs("bc"), 1));
    assert!(found_at(&cs("abcabc"), &cs("bc"), 4));
    assert!(!found_at(&cs("abcabc"), &cs("bc"), 2));
    assert!(!found_at(&cs("abcabc"), &cs("bc"), 5));
    assert!(!found_at(&cs("abcabc"), &cs("bc"), 50));
    assert!(ends_with(&cs("2017abca_qf1m1"), &cs("qf1m1")));
    assert!(!ends_with(&cs("2017abca_qf1m2"), &cs("qf1m1")));
    assert!(!ends_with(&cs("f1m1"), &cs("qf1m1")));
}

#[test]
fn decimal_numbers() {
    assert_eq!(decimal_chars(0), cs("0"));
    assert_eq!(decimal_chars(7), cs("7"));
    assert_eq!(decimal_chars(10), cs("10"));
    assert_eq!(decimal_chars(2017), cs("2017"));
    assert_eq!(decimal_chars(1234567890), cs("1234567890"));
    assert_eq!(read_number(&cs("frc254"), 3), Some(254));
    assert_eq!(read_number(&cs("007"), 0), Some(7));
    assert_eq!(read_number(&cs("0"), 0), Some(0));
    assert_eq!(read_number(&cs("12a"), 0), None);
    assert_eq!(read_number(&cs("12"), 2), None);
    assert_eq!(read_number(&cs("-1"), 0), None);
    assert_eq!(read_number(&cs("99999999999999999999999999"), 0), None);
    assert_eq!(read_number(&cs(&usize::MAX.to_string()), 0), Some(usize::MAX));
}

#[test]
fn team_numbers() {
    assert_eq!(team_number("frc254"), Some(254));
    assert_eq!(team_number("frc1"), Some(1));
    assert_eq!(team_number("frc9999"), Some(9999));
    assert_eq!(team_number("frc"), None);
    assert_eq!(team_number("254"), None);
    assert_eq!(team_number("frc25b"), None);
    assert_eq!(team_number("FRC254"), None);
    assert_eq!(team_number(""), None);
}

#[test]
fn years_and_playoffs() {
    assert!(in_year("2017abca", 2017));
    assert!(!in_year("2017abca", 2016));
    assert!(in_year("2017abca_qm1", 2017));
    assert!(is_playoff_opener("2017abca_qf1m1"));
    assert!(!is_playoff_opener("2017abca_qf2m1"));
    assert!(!is_playoff_opener("2017abca_qm1"));
    assert!(!is_playoff_opener("m1"));
}

#[test]
fn a_season_rolls_over_at_the_first_event_of_the_next_year() {
    let mut season = Season::new(2002);
    assert_eq!(season.start_year, 2002);
    assert_eq!(season.current_year, 2002);
    assert_eq!(season.year_index(), Some(0));
    assert!(!season.enter_event("2002abca"));
    assert_eq!(season.current_year, 2002);
    assert!(season.enter_event("2003abca"));
    assert_eq!(season.current_year, 2003);
    assert_eq!(season.year_index(), Some(1));
    assert!(!season.enter_event("2003wxyz"));
    assert_eq!(season.current_year, 2003);
    season.new_year();
    assert_eq!(season.current_year, 2004);
    assert_eq!(season.start_year, 2002);
    let before = Season { start_year: 2010, current_year: 2005 };
    assert_eq!(before.year_index(), None);
}
