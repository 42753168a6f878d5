//! The rules of the margin-based rating that are decided on whole numbers: the table of
//! score spreads, the weight of a match, the teams that are active, and the count of
//! predictions that came true.

use crate::models::{Matche, Outcome};
use crate::season::{in_year, names_year, Season};
use crate::text::{chars_of, number_from, read_number, text_equal};
use vstd::prelude::*;

verus! {

/// The number of years for which a score spread is known.
pub const KNOWN_YEARS: usize = 16;

/// The rating toward which every team is drawn at the turn of a year.
pub const NEW_AVG: i32 = 150;

/// The number of team numbers that the set of active teams holds by default.
pub const TEAM_NUMBERS: usize = 10000;

/// The standard deviation of the score margin, in tenths of a point, for each year counted
/// from the first; `None` outside the years that are known.
pub open spec fn spread_tenths(index: int) -> Option<u32> {
    if index == 0 {
        Some(176u32)
    } else if index == 1 {
        Some(509u32)
    } else if index == 2 {
        Some(456u32)
    } else if index == 3 {
        Some(246u32)
    } else if index == 4 {
        Some(284u32)
    } else if index == 5 {
        Some(462u32)
    } else if index == 6 {
        Some(244u32)
    } else if index == 7 {
        Some(210u32)
    } else if index == 8 {
        Some(27u32)
    } else if index == 9 {
        Some(284u32)
    } else if index == 10 {
        Some(155u32)
    } else if index == 11 {
        Some(311u32)
    } else if index == 12 {
        Some(493u32)
    } else if index == 13 {
        Some(332u32)
    } else if index == 14 {
        Some(470u32)
    } else if index == 15 {
        Some(950u32)
    } else {
        None
    }
}

/// Looks up the score spread of a year, in tenths of a point.
pub fn score_std_tenths(index: usize) -> (spread: Option<u32>)
    ensures
        spread == spread_tenths(index as int),
        spread.is_some() <==> index < KNOWN_YEARS,
{
    if index == 0 {
        Some(176)
    } else if index == 1 {
        Some(509)
    } else if index == 2 {
        Some(456)
    } else if index == 3 {
        Some(246)
    } else if index == 4 {
        Some(284)
    } else if index == 5 {
        Some(462)
    } else if index == 6 {
        Some(244)
    } else if index == 7 {
        Some(210)
    } else if index == 8 {
        Some(27)
    } else if index == 9 {
        Some(284)
    } else if index == 10 {
        Some(155)
    } else if index == 11 {
        Some(311)
    } else if index == 12 {
        Some(493)
    } else if index == 13 {
        Some(332)
    } else if index == 14 {
        Some(470)
    } else if index == 15 {
        Some(950)
    } else {
        None
    }
}

/// The score spread of the year that a replay has reached: `None` where the year lies
/// outside the years that are known.
pub fn season_spread(season: &Season) -> (spread: Option<u32>)
    ensures
        spread == match season.spec_year_index() {
            Some(index) => spread_tenths(index as int),
            None => None,
        },
{
    match season.year_index() {
        Some(index) => score_std_tenths(index),
        None => None,
    }
}

/// By how much the change of a match is divided: qualification matches count in full,
/// all others by a third.
pub open spec fn divisor_of(level: Seq<char>) -> u8 {
    if level == "qm"@ {
        1
    } else {
        3
    }
}

/// Computes the divisor for a competition level.
pub fn update_divisor(comp_level: &str) -> (divisor: u8)
    ensures
        divisor == divisor_of(comp_level@),
{
    if text_equal(comp_level, "qm") {
        1
    } else {
        3
    }
}

/// A team whose rating a match moves, and the direction: `1` where the team gains what red
/// gains, `-1` where it loses it.
pub struct Change {
    pub team: String,
    pub sign: i8,
}

/// The keys of an alliance, each with the same direction.
pub open spec fn signed(keys: Seq<Seq<char>>, sign: int) -> Seq<(Seq<char>, int)> {
    keys.map_values(|k: Seq<char>| (k, sign))
}

/// The teams and directions of a list of changes.
pub open spec fn changes_of(changes: Seq<Change>) -> Seq<(Seq<char>, int)> {
    changes.map_values(|c: Change| (c.team@, c.sign as int))
}

/// The changes that a match asks for: every red team up, every blue team down.
pub open spec fn match_changes(m: Matche) -> Seq<(Seq<char>, int)> {
    signed(m.red_keys(), 1) + signed(m.blue_keys(), -1)
}

/// The directions of a list of changes, added up.
pub open spec fn sign_total(changes: Seq<(Seq<char>, int)>) -> int
    decreases changes.len(),
{
    if changes.len() == 0 {
        0
    } else {
        sign_total(changes.drop_last()) + changes.last().1
    }
}

/// Lists the teams whose ratings a match moves, red before blue, each with its direction.
/// A third team that an alliance does not have is not listed.
pub fn changes(m: &Matche) -> (list: Vec<Change>)
    ensures
        changes_of(list@) == match_changes(*m),
{
    let red = m.get_red();
    let blue = m.get_blue();
    let ghost red_keys = crate::models::keys_of(red@);
    let ghost blue_keys = crate::models::keys_of(blue@);
    let mut list: Vec<Change> = Vec::new();
    let mut i: usize = 0;
    while i < red.len()
        invariant
            i <= red.len(),
            red_keys == crate::models::keys_of(red@),
            changes_of(list@) == signed(red_keys.take(i as int), 1),
        decreases red.len() - i,
    {
        let ghost earlier = changes_of(list@);
        list.push(Change { team: red[i].clone(), sign: 1 });
        assert(red_keys[i as int] == red@[i as int]@);
        assert(changes_of(list@) =~= earlier.push((red_keys[i as int], 1int)));
        assert(changes_of(list@) =~= signed(red_keys.take(i + 1), 1));
        i += 1;
    }
    assert(red_keys.take(red@.len() as int) =~= red_keys);
    let mut j: usize = 0;
    while j < blue.len()
        invariant
            j <= blue.len(),
            blue_keys == crate::models::keys_of(blue@),
            changes_of(list@) == signed(red_keys, 1) + signed(blue_keys.take(j as int), -1),
        decreases blue.len() - j,
    {
        let ghost earlier = changes_of(list@);
        list.push(Change { team: blue[j].clone(), sign: -1 });
        assert(blue_keys[j as int] == blue@[j as int]@);
        assert(changes_of(list@) =~= earlier.push((blue_keys[j as int], -1int)));
        assert(changes_of(list@) =~= signed(red_keys, 1) + signed(blue_keys.take(j + 1), -1));
        j += 1;
    }
    assert(blue_keys.take(blue@.len() as int) =~= blue_keys);
    list
}

proof fn lemma_sign_total_of_sides(red: Seq<Seq<char>>, blue: Seq<Seq<char>>)
    ensures
        sign_total(signed(red, 1) + signed(blue, -1)) == red.len() - blue.len(),
    decreases red.len() + blue.len(),
{
    let all = signed(red, 1) + signed(blue, -1);
    if blue.len() > 0 {
        lemma_sign_total_of_sides(red, blue.drop_last());
        assert(all.drop_last() =~= signed(red, 1) + signed(blue.drop_last(), -1));
    } else if red.len() > 0 {
        lemma_sign_total_of_sides(red.drop_last(), blue);
        assert(all.drop_last() =~= signed(red.drop_last(), 1) + signed(blue, -1));
    }
}

/// The directions of a match add up to the number of red teams less the number of blue
/// teams. Where both alliances have as many teams, as with six robots on the field, they
/// cancel: whatever amount the match moves, the ratings of its teams together stay as they
/// were.
pub proof fn lemma_changes_cancel(m: Matche)
    ensures
        sign_total(match_changes(m)) == m.red_keys().len() - m.blue_keys().len(),
        m.red3.is_some() == m.blue3.is_some() ==> sign_total(match_changes(m)) == 0,
{
    lemma_sign_total_of_sides(m.red_keys(), m.blue_keys());
}

/// The number of a team: what follows the letters `frc` in its key, where that is a number.
pub open spec fn number_of_key(key: Seq<char>) -> Option<usize> {
    if key.len() >= 3 && key[0] == 'f' && key[1] == 'r' && key[2] == 'c' {
        number_from(key, 3)
    } else {
        None
    }
}

/// Reads the number of a team from its key.
pub fn team_number(key: &str) -> (number: Option<usize>)
    ensures
        number == number_of_key(key@),
{
    let chars = chars_of(key);
    if chars.len() >= 3 && chars[0] == 'f' && chars[1] == 'r' && chars[2] == 'c' {
        read_number(&chars, 3)
    } else {
        None
    }
}

/// The teams that have played in the current season, by team number.
#[derive(Debug, Clone)]
pub struct ActiveTeams {
    pub flags: Vec<bool>,
}

impl View for ActiveTeams {
    type V = Set<nat>;

    open spec fn view(&self) -> Set<nat> {
        Set::new(|n: nat| n < self.flags@.len() && self.flags@[n as int])
    }
}

impl ActiveTeams {
    /// A set for the team numbers below `capacity`, with no team in it.
    pub fn new(capacity: usize) -> (teams: ActiveTeams)
        ensures
            teams@ == Set::<nat>::empty(),
            teams.flags@.len() == capacity,
    {
        let mut flags: Vec<bool> = Vec::new();
        while flags.len() < capacity
            invariant
                flags@.len() <= capacity,
                forall|i: int| 0 <= i < flags@.len() ==> !flags@[i],
            decreases capacity - flags@.len(),
        {
            flags.push(false);
        }
        let teams = ActiveTeams { flags };
        assert(teams@ =~= Set::<nat>::empty());
        teams
    }

    /// Marks a team as active. A number that the set has no place for is left out, and the
    /// answer is `false`.
    pub fn mark(&mut self, number: usize) -> (kept: bool)
        ensures
            kept == (number < old(self).flags@.len()),
            final(self).flags@.len() == old(self).flags@.len(),
            final(self)@ == if kept {
                old(self)@.insert(number as nat)
            } else {
                old(self)@
            },
    {
        if number < self.flags.len() {
            self.flags[number] = true;
            assert(final(self)@ =~= old(self)@.insert(number as nat));
            true
        } else {
            false
        }
    }

    /// Whether a team is marked as active.
    pub fn is_active(&self, number: usize) -> (active: bool)
        ensures
            active == self@.contains(number as nat),
    {
        number < self.flags.len() && self.flags[number]
    }
}

/// How many predictions were checked against a result, and how many of them named the
/// winner.
#[derive(Debug, Clone, Copy, PartialEq, Eq, Structural)]
pub struct Scorecard {
    pub total: usize,
    pub wins_correct: usize,
}

impl Scorecard {
    /// No more predictions came true than were checked.
    pub open spec fn wf(&self) -> bool {
        self.wins_correct <= self.total
    }

    /// A scorecard without predictions.
    pub fn new() -> (card: Scorecard)
        ensures
            card.total == 0,
            card.wins_correct == 0,
            card.wf(),
    {
        Scorecard { total: 0, wins_correct: 0 }
    }

    /// Counts a prediction against the result of its match. A tied match says nothing
    /// about a prediction and is passed over; the answer tells whether the match counted.
    pub fn add(&mut self, result: Outcome, hit: bool) -> (counted: bool)
        requires
            old(self).wf(),
            old(self).total < usize::MAX,
        ensures
            final(self).wf(),
            counted == (result != Outcome::Tie),
            final(self).total == if counted {
                old(self).total + 1
            } else {
                old(self).total as int
            },
            final(self).wins_correct == if counted && hit {
                old(self).wins_correct + 1
            } else {
                old(self).wins_correct as int
            },
    {
        match result {
            Outcome::Tie => false,
            _ => {
                self.total = self.total + 1;
                if hit {
                    self.wins_correct = self.wins_correct + 1;
                }
                true
            },
        }
    }
}

/// What a replay keeps beside the ratings: the year it has reached, the teams that are
/// active, and the count of checked predictions.
#[derive(Debug, Clone)]
pub struct Ledger {
    pub season: Season,
    pub active_teams: ActiveTeams,
    pub card: Scorecard,
    /// The year whose teams count as active.
    pub latest_year: usize,
    /// The year whose predictions are checked.
    pub evaluation_year: usize,
}

impl Ledger {
    /// A ledger at the beginning of the first year, with no team active and no prediction
    /// checked.
    pub fn new(start_year: usize, latest_year: usize, evaluation_year: usize) -> (ledger: Ledger)
        ensures
            ledger.season.start_year == start_year,
            ledger.season.current_year == start_year,
            ledger.active_teams@ == Set::<nat>::empty(),
            ledger.active_teams.flags@.len() == TEAM_NUMBERS,
            ledger.card.total == 0,
            ledger.card.wins_correct == 0,
            ledger.latest_year == latest_year,
            ledger.evaluation_year == evaluation_year,
    {
        Ledger {
            season: Season::new(start_year),
            active_teams: ActiveTeams::new(TEAM_NUMBERS),
            card: Scorecard::new(),
            latest_year,
            evaluation_year,
        }
    }

    /// Notes that the rating of a team has changed. In the latest year this marks the team
    /// as active; the answer is `false` where its key holds no number that the set of
    /// active teams has a place for, and nothing is marked then.
    pub fn note_update(&mut self, team: &str) -> (noted: bool)
        ensures
            final(self).season == old(self).season,
            final(self).card == old(self).card,
            final(self).latest_year == old(self).latest_year,
            final(self).evaluation_year == old(self).evaluation_year,
            final(self).active_teams.flags@.len() == old(self).active_teams.flags@.len(),
            old(self).season.current_year != old(self).latest_year ==> noted
                && final(self).active_teams@ == old(self).active_teams@,
            old(self).season.current_year == old(self).latest_year ==> final(self).active_teams@
                == if noted {
                old(self).active_teams@.insert(number_of_key(team@).unwrap() as nat)
            } else {
                old(self).active_teams@
            },
            old(self).season.current_year == old(self).latest_year ==> noted == match number_of_key(
                team@,
            ) {
                Some(n) => n < old(self).active_teams.flags@.len(),
                None => false,
            },
    {
        if self.season.current_year != self.latest_year {
            return true;
        }
        match team_number(team) {
            Some(n) => self.active_teams.mark(n),
            None => false,
        }
    }

    /// Whether the prediction of a match is checked against its result: the match lies in
    /// the year that is checked, and it did not end in a tie.
    pub open spec fn checks(&self, m: &Matche) -> bool {
        names_year(m.id@, self.evaluation_year as nat) && crate::models::outcome_of(
            m.red_score,
            m.blue_score,
        ) != Outcome::Tie
    }

    /// Counts the prediction of a match, where it is checked, and tells whether it was.
    /// `hit` says whether the prediction named the winner.
    pub fn note_prediction(&mut self, m: &Matche, hit: bool) -> (counted: bool)
        requires
            old(self).card.wf(),
            old(self).card.total < usize::MAX,
        ensures
            counted == old(self).checks(m),
            final(self).card.wf(),
            final(self).card.total == if counted {
                old(self).card.total + 1
            } else {
                old(self).card.total as int
            },
            final(self).card.wins_correct == if counted && hit {
                old(self).card.wins_correct + 1
            } else {
                old(self).card.wins_correct as int
            },
            final(self).season == old(self).season,
            final(self).active_teams == old(self).active_teams,
            final(self).latest_year == old(self).latest_year,
            final(self).evaluation_year == old(self).evaluation_year,
    {
        if in_year(m.id.as_str(), self.evaluation_year) {
            self.card.add(m.actual_r(), hit)
        } else {
            false
        }
    }
}

} // verus!
