//! Records for events and matches, and the rows that are stored for them.

use vstd::prelude::*;

verus! {

/// An event as the upstream archive describes it.
#[derive(Debug, Clone)]
pub struct EventJSON {
    pub key: String,
    pub name: String,
    pub event_type: usize,
    pub start_date: String,
    pub week: Option<i32>,
}

/// A stored event.
pub struct Event {
    pub id: String,
    pub name: String,
    pub event_type: i32,
    pub official: i32,
    pub start_date: String,
    pub week: i32,
}

/// An event row that is about to be stored.
pub struct NewEvent<'a> {
    pub id: &'a str,
    pub name: &'a str,
    pub event_type: i32,
    pub official: i32,
    pub start_date: &'a str,
    pub week: i32,
}

/// The type code of unofficial, off-season events.
pub const OFFSEASON_TYPE: usize = 99;

/// The week assigned to an event that carries none.
pub const DEFAULT_WEEK: i32 = 7;

/// The `official` flag that belongs to an event type.
pub open spec fn official_flag(event_type: usize) -> i32 {
    if event_type == OFFSEASON_TYPE {
        0
    } else {
        1
    }
}

/// The week of an event, with the default where the archive gave none.
pub open spec fn week_or_default(week: Option<i32>) -> i32 {
    match week {
        Some(w) => w,
        None => DEFAULT_WEEK,
    }
}

/// Builds the row to store for an archive event.
pub fn prepare_event(event: &EventJSON) -> (row: NewEvent<'_>)
    ensures
        row.id@ == event.key@,
        row.name@ == event.name@,
        row.start_date@ == event.start_date@,
        row.event_type == event.event_type as i32,
        row.official == official_flag(event.event_type),
        row.week == week_or_default(event.week),
{
    NewEvent {
        id: event.key.as_str(),
        name: event.name.as_str(),
        event_type: #[verifier::truncate] (event.event_type as i32),
        official: if event.event_type == OFFSEASON_TYPE { 0 } else { 1 },
        week: match event.week {
            Some(w) => w,
            None => DEFAULT_WEEK,
        },
        start_date: event.start_date.as_str(),
    }
}

/// The two sides of a match as the archive lists them.
#[derive(Debug, Clone)]
pub struct Alliances {
    pub red: Alliance,
    pub blue: Alliance,
}

/// One side of a match: its score and its teams.
#[derive(Debug, Clone)]
pub struct Alliance {
    pub score: i32,
    pub team_keys: Vec<String>,
}

/// A match as the upstream archive describes it.
#[derive(Debug, Clone)]
pub struct GameMatch {
    pub key: String,
    pub comp_level: String,
    pub match_number: i32,
    pub set_number: i32,
    pub event_key: String,
    pub alliances: Alliances,
}

/// How a match ended for one alliance.
#[derive(Debug, Clone, Copy, PartialEq, Eq, Structural)]
pub enum Outcome {
    Loss,
    Tie,
    Win,
}

impl Outcome {
    /// The same match seen from the other alliance.
    pub open spec fn spec_mirror(self) -> Outcome {
        match self {
            Outcome::Loss => Outcome::Win,
            Outcome::Tie => Outcome::Tie,
            Outcome::Win => Outcome::Loss,
        }
    }

    /// Twice the realised win probability: 2 for a win, 1 for a tie, 0 for a loss.
    pub open spec fn spec_ranking_points(self) -> usize {
        match self {
            Outcome::Loss => 0,
            Outcome::Tie => 1,
            Outcome::Win => 2,
        }
    }

    /// The same match seen from the other alliance.
    #[verifier::when_used_as_spec(spec_mirror)]
    pub fn mirror(self) -> (other: Outcome)
        ensures
            other == self.spec_mirror(),
    {
        match self {
            Outcome::Loss => Outcome::Win,
            Outcome::Tie => Outcome::Tie,
            Outcome::Win => Outcome::Loss,
        }
    }

    /// The ranking points that the result is worth to each team of the alliance.
    #[verifier::when_used_as_spec(spec_ranking_points)]
    pub fn ranking_points(self) -> (points: usize)
        ensures
            points == self.spec_ranking_points(),
    {
        match self {
            Outcome::Loss => 0,
            Outcome::Tie => 1,
            Outcome::Win => 2,
        }
    }
}

/// The result of a match for the alliance that scored `own` against `other`.
pub open spec fn outcome_of(own: i32, other: i32) -> Outcome {
    if own > other {
        Outcome::Win
    } else if own < other {
        Outcome::Loss
    } else {
        Outcome::Tie
    }
}

/// A stored match.
#[derive(Debug, Clone)]
pub struct Matche {
    pub id: String,
    pub comp_level: String,
    pub match_number: i32,
    pub set_number: i32,
    pub event_id: String,
    pub red_score: i32,
    pub blue_score: i32,
    pub red1: String,
    pub red2: String,
    pub red3: Option<String>,
    pub blue1: String,
    pub blue2: String,
    pub blue3: Option<String>,
}

/// The team keys of an alliance: the two that every alliance has, then the third if there is one.
pub open spec fn alliance_keys(first: String, second: String, third: Option<String>) -> Seq<
    Seq<char>,
> {
    match third {
        Some(t) => seq![first@, second@, t@],
        None => seq![first@, second@],
    }
}

/// The team keys that a list of strings holds.
pub open spec fn keys_of(teams: Seq<String>) -> Seq<Seq<char>> {
    teams.map_values(|t: String| t@)
}

fn collect_alliance(first: &String, second: &String, third: &Option<String>) -> (teams: Vec<String>)
    ensures
        keys_of(teams@) == alliance_keys(*first, *second, *third),
{
    let mut teams: Vec<String> = Vec::new();
    teams.push(first.clone());
    teams.push(second.clone());
    if let Some(t) = third {
        teams.push(t.clone());
    }
    assert(keys_of(teams@) =~= alliance_keys(*first, *second, *third));
    teams
}

impl Matche {
    /// The keys of the red alliance.
    pub open spec fn red_keys(&self) -> Seq<Seq<char>> {
        alliance_keys(self.red1, self.red2, self.red3)
    }

    /// The keys of the blue alliance.
    pub open spec fn blue_keys(&self) -> Seq<Seq<char>> {
        alliance_keys(self.blue1, self.blue2, self.blue3)
    }

    /// Whether both alliances have a score, so that the match was played.
    pub open spec fn played(&self) -> bool {
        self.red_score >= 0 && self.blue_score >= 0
    }

    /// The teams of the red alliance.
    pub fn get_red(&self) -> (teams: Vec<String>)
        ensures
            keys_of(teams@) == self.red_keys(),
    {
        collect_alliance(&self.red1, &self.red2, &self.red3)
    }

    /// The teams of the blue alliance.
    pub fn get_blue(&self) -> (teams: Vec<String>)
        ensures
            keys_of(teams@) == self.blue_keys(),
    {
        collect_alliance(&self.blue1, &self.blue2, &self.blue3)
    }

    /// The result for red: a win with the higher score, a loss with the lower, else a tie.
    pub fn actual_r(&self) -> (result: Outcome)
        ensures
            result == outcome_of(self.red_score, self.blue_score),
    {
        if self.red_score > self.blue_score {
            Outcome::Win
        } else if self.red_score < self.blue_score {
            Outcome::Loss
        } else {
            Outcome::Tie
        }
    }

    /// The result for blue, the mirror of red's.
    pub fn actual_b(&self) -> (result: Outcome)
        ensures
            result == outcome_of(self.blue_score, self.red_score),
            result == outcome_of(self.red_score, self.blue_score).mirror(),
    {
        if self.red_score > self.blue_score {
            Outcome::Loss
        } else if self.red_score < self.blue_score {
            Outcome::Win
        } else {
            Outcome::Tie
        }
    }

    /// Red's score minus blue's.
    pub fn score_margin(&self) -> (margin: i32)
        requires
            i32::MIN <= self.red_score - self.blue_score <= i32::MAX,
        ensures
            margin == self.red_score - self.blue_score,
    {
        self.red_score - self.blue_score
    }
}

/// A match row that is about to be stored.
pub struct NewMatch<'a> {
    pub id: &'a str,
    pub comp_level: &'a str,
    pub match_number: i32,
    pub set_number: i32,
    pub event_id: &'a str,
    pub red_score: i32,
    pub blue_score: i32,
    pub red1: &'a str,
    pub red2: &'a str,
    pub red3: Option<&'a str>,
    pub blue1: &'a str,
    pub blue2: &'a str,
    pub blue3: Option<&'a str>,
}

/// Whether an alliance as the archive lists it has the two teams that every alliance needs.
pub open spec fn has_two_teams(alliance: Alliance) -> bool {
    alliance.team_keys@.len() >= 2
}

/// The key at `index` of a list of teams, if the list is that long.
pub open spec fn key_at(teams: Seq<String>, index: int) -> Option<Seq<char>> {
    if 0 <= index < teams.len() {
        Some(teams[index]@)
    } else {
        None
    }
}

/// The characters of a string that may be absent.
pub open spec fn optional_key(s: Option<&str>) -> Option<Seq<char>> {
    match s {
        Some(t) => Some(t@),
        None => None,
    }
}

fn team_at<'a>(teams: &'a Vec<String>, index: usize) -> (key: Option<&'a str>)
    ensures
        optional_key(key) == key_at(teams@, index as int),
{
    if index < teams.len() {
        Some(teams[index].as_str())
    } else {
        None
    }
}

/// Builds the row to store for an archive match. A match with fewer than two teams on either
/// side has no well-defined alliances and yields no row.
pub fn prepare_match(game_match: &GameMatch) -> (row: Option<NewMatch<'_>>)
    ensures
        row.is_some() <==> has_two_teams(game_match.alliances.red) && has_two_teams(
            game_match.alliances.blue,
        ),
        row matches Some(r) ==> {
            &&& r.id@ == game_match.key@
            &&& r.comp_level@ == game_match.comp_level@
            &&& r.match_number == game_match.match_number
            &&& r.set_number == game_match.set_number
            &&& r.event_id@ == game_match.event_key@
            &&& r.red_score == game_match.alliances.red.score
            &&& r.blue_score == game_match.alliances.blue.score
            &&& r.red1@ == game_match.alliances.red.team_keys@[0]@
            &&& r.red2@ == game_match.alliances.red.team_keys@[1]@
            &&& optional_key(r.red3) == key_at(game_match.alliances.red.team_keys@, 2)
            &&& r.blue1@ == game_match.alliances.blue.team_keys@[0]@
            &&& r.blue2@ == game_match.alliances.blue.team_keys@[1]@
            &&& optional_key(r.blue3) == key_at(game_match.alliances.blue.team_keys@, 2)
        },
{
    let red = &game_match.alliances.red.team_keys;
    let blue = &game_match.alliances.blue.team_keys;
    if red.len() < 2 || blue.len() < 2 {
        return None;
    }
    Some(
        NewMatch {
            id: game_match.key.as_str(),
            comp_level: game_match.comp_level.as_str(),
            match_number: game_match.match_number,
            set_number: game_match.set_number,
            event_id: game_match.event_key.as_str(),
            red_score: game_match.alliances.red.score,
            blue_score: game_match.alliances.blue.score,
            red1: red[0].as_str(),
            red2: red[1].as_str(),
            red3: team_at(red, 2),
            blue1: blue[0].as_str(),
            blue2: blue[1].as_str(),
            blue3: team_at(blue, 2),
        },
    )
}

} // verus!
