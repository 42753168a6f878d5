//! What the upstream archive reports: a raw response, and the ranking of a team at an event.

use crate::text::{chars_of, found_at, occurs_at};
use vstd::prelude::*;

verus! {

/// What a request to the archive returned.
pub struct Response {
    pub code: u32,
    pub data: Vec<u8>,
    pub last_modified: String,
}

/// The status code of a response that carries new data.
pub const STATUS_OK: u32 = 200;

impl Response {
    /// Whether the response carries new data. Every other code, "not modified" among them,
    /// means that there is nothing to read.
    pub fn is_fresh(&self) -> (fresh: bool)
        ensures
            fresh == (self.code == STATUS_OK),
    {
        self.code == STATUS_OK
    }
}

/// How the header line that dates a response begins.
pub open spec fn last_modified_prefix() -> Seq<char> {
    "Last-Modified: "@
}

/// Reads the date from a header line: what follows the name of the header, if the line
/// begins with it.
pub fn last_modified_value<'a>(header: &'a str) -> (value: Option<&'a str>)
    ensures
        value.is_some() <==> occurs_at(header@, last_modified_prefix(), 0),
        value matches Some(v) ==> v@ == header@.skip(last_modified_prefix().len() as int),
{
    let line = chars_of(header);
    let prefix = chars_of("Last-Modified: ");
    if found_at(&line, &prefix, 0) {
        let value = header.substring_char(prefix.len(), line.len());
        assert(header@.subrange(prefix@.len() as int, line@.len() as int) =~= header@.skip(
            prefix@.len() as int,
        ));
        Some(value)
    } else {
        None
    }
}

/// The wins, losses and ties of a team at an event.
#[derive(Debug, Clone, Copy)]
pub struct WinLossRecord {
    pub losses: usize,
    pub ties: usize,
    pub wins: usize,
}

impl WinLossRecord {
    /// The ranking points of a record: two for each win and one for each tie.
    pub open spec fn points(&self) -> nat {
        (2 * self.wins + self.ties) as nat
    }

    /// A record without matches.
    pub fn new() -> (record: WinLossRecord)
        ensures
            record.wins == 0,
            record.losses == 0,
            record.ties == 0,
    {
        WinLossRecord { losses: 0, ties: 0, wins: 0 }
    }

    /// The ranking points of the record.
    pub fn to_usize(&self) -> (points: usize)
        requires
            self.points() <= usize::MAX,
        ensures
            points == self.points(),
    {
        2 * self.wins + self.ties
    }
}

/// The share of a team's matches in which it earned the bonus ranking point.
#[derive(Debug, Clone, Copy, PartialEq, Eq, Structural)]
pub struct ExtraRate {
    /// The bonus points counted, never more than `played`.
    pub earned: usize,
    /// The matches played.
    pub played: usize,
}

/// The ranking of one team at one event.
#[derive(Debug, Clone)]
pub struct TeamEventRanking {
    pub matches_played: usize,
    /// The ranking statistics; the first is the total of ranking points.
    pub extra_stats: Vec<usize>,
    pub record: WinLossRecord,
    pub team_key: String,
    /// The first secondary sort-order statistic as a whole number that orders as the
    /// statistic does; zero where there is none.
    pub secondary: i64,
}

/// What a ranking says, as plain numbers.
pub struct RankingModel {
    pub key: Seq<char>,
    pub played: nat,
    pub wins: nat,
    pub losses: nat,
    pub ties: nat,
    pub stats: Seq<nat>,
    pub secondary: int,
}

impl View for TeamEventRanking {
    type V = RankingModel;

    open spec fn view(&self) -> RankingModel {
        RankingModel {
            key: self.team_key@,
            played: self.matches_played as nat,
            wins: self.record.wins as nat,
            losses: self.record.losses as nat,
            ties: self.record.ties as nat,
            stats: self.extra_stats@.map_values(|x: usize| x as nat),
            secondary: self.secondary as int,
        }
    }
}

/// The rankings that the archive lists for an event.
#[derive(Debug, Clone)]
pub struct RankingResultJSON {
    pub rankings: Vec<TeamEventRanking>,
}

/// The smaller of two numbers.
pub open spec fn least(a: int, b: int) -> int {
    if a <= b {
        a
    } else {
        b
    }
}

impl ExtraRate {
    /// The rate with the warm-up weight of a team's first four matches, as a fraction: the
    /// plain rate times a quarter of the matches played, the full rate from the fourth on.
    pub fn weighted(&self) -> (fraction: (u128, u128))
        requires
            self.earned <= self.played,
        ensures
            fraction.0 == self.earned * least(self.played as int, 4),
            fraction.1 == self.played * 4,
            fraction.0 <= fraction.1,
    {
        let weight: u128 = if self.played < 4 {
            self.played as u128
        } else {
            4
        };
        assert(self.earned * weight <= self.played * 4) by (nonlinear_arith)
            requires
                self.earned <= self.played,
                0 <= weight <= 4,
        ;
        assert(self.played * 4 <= u128::MAX);
        ((self.earned as u128) * weight, (self.played as u128) * 4)
    }
}

impl TeamEventRanking {
    /// The total of ranking points: the first statistic, or what the record is worth where
    /// no statistic is kept yet.
    pub open spec fn points(&self) -> nat {
        if self.extra_stats@.len() > 0 {
            self.extra_stats@[0] as nat
        } else {
            self.record.points()
        }
    }

    /// The ranking points that the record does not account for.
    pub open spec fn bonus(&self) -> nat {
        if self.points() > self.record.points() {
            (self.points() - self.record.points()) as nat
        } else {
            0
        }
    }

    /// Whether `self` is `earlier` but for the record, the number of matches and the first
    /// statistic.
    pub open spec fn same_team_as(&self, earlier: &TeamEventRanking) -> bool {
        &&& self.team_key == earlier.team_key
        &&& self.secondary == earlier.secondary
        &&& self.extra_stats@.len() == earlier.extra_stats@.len()
        &&& forall|i: int|
            1 <= i < self.extra_stats@.len() ==> self.extra_stats@[i] == earlier.extra_stats@[i]
    }

    /// The ranking of a team that has not played: no points, no matches.
    pub fn new(key: &str) -> (ranking: TeamEventRanking)
        ensures
            ranking.team_key@ == key@,
            ranking.matches_played == 0,
            ranking.extra_stats@ == seq![0usize],
            ranking.record.wins == 0,
            ranking.record.losses == 0,
            ranking.record.ties == 0,
            ranking.secondary == 0,
    {
        let mut ranking = TeamEventRanking {
            matches_played: 0,
            extra_stats: Vec::new(),
            record: WinLossRecord::new(),
            team_key: key.to_owned(),
            secondary: 0,
        };
        ranking.extra_stats.push(0);
        ranking
    }

    /// The total of ranking points. Where no statistic is kept yet, the first one is set to
    /// what the record is worth.
    pub fn to_usize(&mut self) -> (points: usize)
        requires
            old(self).points() <= usize::MAX,
        ensures
            points == old(self).points(),
            final(self).points() == points,
            final(self).extra_stats@ == if old(self).extra_stats@.len() == 0 {
                seq![points]
            } else {
                old(self).extra_stats@
            },
            final(self).matches_played == old(self).matches_played,
            final(self).record == old(self).record,
            final(self).team_key == old(self).team_key,
            final(self).secondary == old(self).secondary,
    {
        if self.extra_stats.len() == 0 {
            let worth = self.record.to_usize();
            self.extra_stats.push(worth);
        }
        self.extra_stats[0]
    }

    /// How often the team has earned the bonus point so far: the points that its record does
    /// not account for, at most one per match, over the matches played.
    pub fn extra_prob(&mut self) -> (rate: ExtraRate)
        requires
            old(self).points() <= usize::MAX,
            old(self).record.points() <= usize::MAX,
        ensures
            rate.played == old(self).matches_played,
            rate.earned == least(old(self).bonus() as int, old(self).matches_played as int),
            rate.earned <= rate.played,
            final(self).points() == old(self).points(),
            final(self).extra_stats@ == if old(self).extra_stats@.len() == 0 {
                seq![old(self).points() as usize]
            } else {
                old(self).extra_stats@
            },
            final(self).matches_played == old(self).matches_played,
            final(self).record == old(self).record,
            final(self).team_key == old(self).team_key,
            final(self).secondary == old(self).secondary,
    {
        let total = self.to_usize();
        let base = self.record.to_usize();
        let bonus: usize = if total > base {
            total - base
        } else {
            0
        };
        let earned: usize = if bonus <= self.matches_played {
            bonus
        } else {
            self.matches_played
        };
        ExtraRate { earned, played: self.matches_played }
    }

    /// Counts a win: one more match, one more win, two more ranking points.
    pub fn add_win(&mut self)
        requires
            old(self).extra_stats@.len() > 0,
            old(self).extra_stats@[0] <= usize::MAX - 2,
            old(self).matches_played < usize::MAX,
            old(self).record.wins < usize::MAX,
        ensures
            final(self).record.wins == old(self).record.wins + 1,
            final(self).record.losses == old(self).record.losses,
            final(self).record.ties == old(self).record.ties,
            final(self).matches_played == old(self).matches_played + 1,
            final(self).extra_stats@[0] == old(self).extra_stats@[0] + 2,
            final(self).same_team_as(old(self)),
    {
        self.record.wins += 1;
        self.matches_played += 1;
        let first = self.extra_stats[0];
        self.extra_stats[0] = first + 2;
    }

    /// Counts a loss: one more match, one more loss, no ranking point.
    pub fn add_loss(&mut self)
        requires
            old(self).matches_played < usize::MAX,
            old(self).record.losses < usize::MAX,
        ensures
            final(self).extra_stats@ == old(self).extra_stats@,
            final(self).record.wins == old(self).record.wins,
            final(self).record.losses == old(self).record.losses + 1,
            final(self).record.ties == old(self).record.ties,
            final(self).matches_played == old(self).matches_played + 1,
            final(self).same_team_as(old(self)),
    {
        self.record.losses += 1;
        self.matches_played += 1;
    }

    /// Counts a draw: one more match, one more tie, one more ranking point.
    pub fn add_draw(&mut self)
        requires
            old(self).extra_stats@.len() > 0,
            old(self).extra_stats@[0] < usize::MAX,
            old(self).matches_played < usize::MAX,
            old(self).record.ties < usize::MAX,
        ensures
            final(self).record.wins == old(self).record.wins,
            final(self).record.losses == old(self).record.losses,
            final(self).record.ties == old(self).record.ties + 1,
            final(self).matches_played == old(self).matches_played + 1,
            final(self).extra_stats@[0] == old(self).extra_stats@[0] + 1,
            final(self).same_team_as(old(self)),
    {
        self.record.ties += 1;
        self.matches_played += 1;
        let first = self.extra_stats[0];
        self.extra_stats[0] = first + 1;
    }

    /// Counts a bonus ranking point, where a total of ranking points is kept.
    pub fn add_extra(&mut self)
        requires
            old(self).extra_stats@.len() > 0 ==> old(self).extra_stats@[0] < usize::MAX,
        ensures
            final(self).record == old(self).record,
            final(self).matches_played == old(self).matches_played,
            final(self).same_team_as(old(self)),
            old(self).extra_stats@.len() > 0 ==> final(self).extra_stats@[0] == old(
                self,
            ).extra_stats@[0] + 1,
    {
        if self.extra_stats.len() > 0 {
            let first = self.extra_stats[0];
            self.extra_stats[0] = first + 1;
        }
    }

    /// The key of the team.
    pub fn key(&self) -> (key: String)
        ensures
            key@ == self.team_key@,
    {
        self.team_key.clone()
    }
}

} // verus!
