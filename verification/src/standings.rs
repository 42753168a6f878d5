//! The standings of one event during one simulated run: a ranking for each team, found by
//! the team's key.

use crate::models::{Matche, Outcome};
use crate::sorting::{stable_sort, stably_sorted, Ranked};
use crate::tba::{least, ExtraRate, RankingModel, TeamEventRanking};
use crate::text::text_equal;
use vstd::prelude::*;

verus! {

/// Whether a team with this key stands in the list.
pub open spec fn has_key(models: Seq<RankingModel>, key: Seq<char>) -> bool {
    exists|i: int| 0 <= i < models.len() && (#[trigger] models[i]).key == key
}

/// The place of the team with this key in the list.
pub open spec fn index_of(models: Seq<RankingModel>, key: Seq<char>) -> int {
    choose|i: int| 0 <= i < models.len() && (#[trigger] models[i]).key == key
}

/// Whether no two teams of the list share a key.
pub open spec fn distinct_keys(models: Seq<RankingModel>) -> bool {
    forall|i: int, j: int|
        0 <= i < j < models.len() ==> (#[trigger] models[i]).key != (#[trigger] models[j]).key
}

/// The ranking of a team that has not played.
pub open spec fn fresh(key: Seq<char>) -> RankingModel {
    RankingModel { key, played: 0, wins: 0, losses: 0, ties: 0, stats: seq![0nat], secondary: 0 }
}

/// The list with a fresh ranking at its end for a team that was not in it.
pub open spec fn with_entry(models: Seq<RankingModel>, key: Seq<char>) -> Seq<RankingModel> {
    if has_key(models, key) {
        models
    } else {
        models.push(fresh(key))
    }
}

/// A ranking after one more match with the given result: a win is worth two ranking points,
/// a tie one.
pub open spec fn counted(m: RankingModel, result: Outcome) -> RankingModel {
    RankingModel {
        played: m.played + 1,
        wins: if result == Outcome::Win {
            m.wins + 1
        } else {
            m.wins
        },
        losses: if result == Outcome::Loss {
            m.losses + 1
        } else {
            m.losses
        },
        ties: if result == Outcome::Tie {
            m.ties + 1
        } else {
            m.ties
        },
        stats: m.stats.update(0, m.stats[0] + result.spec_ranking_points() as nat),
        ..m
    }
}

/// A ranking after one more bonus point.
pub open spec fn awarded(m: RankingModel) -> RankingModel {
    RankingModel { stats: m.stats.update(0, m.stats[0] + 1nat), ..m }
}

/// The standings after the team with this key has played one more match.
pub open spec fn recorded(models: Seq<RankingModel>, key: Seq<char>, result: Outcome) -> Seq<
    RankingModel,
> {
    let list = with_entry(models, key);
    let i = index_of(list, key);
    list.update(i, counted(list[i], result))
}

/// The standings after the team with this key has earned a bonus point.
pub open spec fn extra_recorded(models: Seq<RankingModel>, key: Seq<char>) -> Seq<RankingModel> {
    let list = with_entry(models, key);
    let i = index_of(list, key);
    list.update(i, awarded(list[i]))
}

/// The standings after each team of an alliance, in turn, has played one more match.
pub open spec fn alliance_recorded(
    models: Seq<RankingModel>,
    keys: Seq<Seq<char>>,
    result: Outcome,
) -> Seq<RankingModel>
    decreases keys.len(),
{
    if keys.len() == 0 {
        models
    } else {
        recorded(alliance_recorded(models, keys.drop_last(), result), keys.last(), result)
    }
}

/// The standings after each team of an alliance, in turn, has earned a bonus point.
pub open spec fn alliance_awarded(models: Seq<RankingModel>, keys: Seq<Seq<char>>) -> Seq<
    RankingModel,
>
    decreases keys.len(),
{
    if keys.len() == 0 {
        models
    } else {
        extra_recorded(alliance_awarded(models, keys.drop_last()), keys.last())
    }
}

/// A ranking as it is kept in the standings: with a total of ranking points, which is what
/// the record is worth where the archive gave none.
pub open spec fn normalised(m: RankingModel) -> RankingModel {
    if m.stats.len() == 0 {
        RankingModel { stats: seq![2 * m.wins + m.ties], ..m }
    } else {
        m
    }
}

/// The standings after a ranking was put in: it takes the place of the team's earlier
/// ranking, or the end of the list.
pub open spec fn inserted(models: Seq<RankingModel>, m: RankingModel) -> Seq<RankingModel> {
    if has_key(models, m.key) {
        models.update(index_of(models, m.key), normalised(m))
    } else {
        models.push(normalised(m))
    }
}

/// The standings that a list of rankings gives, put in one after the other.
pub open spec fn loaded(entries: Seq<RankingModel>) -> Seq<RankingModel>
    decreases entries.len(),
{
    if entries.len() == 0 {
        Seq::empty()
    } else {
        inserted(loaded(entries.drop_last()), entries.last())
    }
}

/// Whether a ranking can take `n` more matches, each with its bonus point.
pub open spec fn entry_room(m: RankingModel, n: nat) -> bool {
    &&& m.stats[0] + 3 * n <= usize::MAX
    &&& m.played + n <= usize::MAX
    &&& m.wins + n <= usize::MAX
    &&& m.losses + n <= usize::MAX
    &&& m.ties + n <= usize::MAX
}

/// The bonus rate of a ranking.
pub open spec fn rate_of(m: RankingModel) -> ExtraRate {
    let worth = 2 * m.wins + m.ties;
    let bonus: int = if m.stats[0] > worth {
        m.stats[0] - worth
    } else {
        0
    };
    ExtraRate { earned: least(bonus, m.played as int) as usize, played: m.played as usize }
}

/// The views of a list of rankings.
pub open spec fn models_of(teams: Seq<TeamEventRanking>) -> Seq<RankingModel> {
    teams.map_values(|t: TeamEventRanking| t@)
}

/// The standings of an event.
#[derive(Debug, Clone)]
pub struct Standings {
    pub teams: Vec<TeamEventRanking>,
    /// Whether the standings started from rankings that the archive listed, which count
    /// the matches played so far.
    pub preloaded: bool,
}

impl View for Standings {
    type V = Seq<RankingModel>;

    open spec fn view(&self) -> Seq<RankingModel> {
        models_of(self.teams@)
    }
}

impl Standings {
    /// Every team stands once, with a total of ranking points.
    pub open spec fn wf(&self) -> bool {
        &&& distinct_keys(self@)
        &&& forall|i: int| 0 <= i < self@.len() ==> (#[trigger] self@[i]).stats.len() > 0
    }

    /// Whether every ranking can take `n` more matches.
    pub open spec fn room_for(&self, n: nat) -> bool {
        &&& 3 * n <= usize::MAX
        &&& forall|i: int| 0 <= i < self@.len() ==> entry_room(#[trigger] self@[i], n)
    }

    /// Standings without teams.
    pub fn new() -> (standings: Standings)
        ensures
            standings@ == Seq::<RankingModel>::empty(),
            !standings.preloaded,
            standings.wf(),
    {
        let standings = Standings { teams: Vec::new(), preloaded: false };
        assert(standings@ =~= Seq::<RankingModel>::empty());
        standings
    }

    /// Decides `room_for`.
    pub fn has_room_for(&self, n: usize) -> (enough: bool)
        requires
            self.wf(),
        ensures
            enough == self.room_for(n as nat),
    {
        if n > usize::MAX / 3 {
            return false;
        }
        let mut i: usize = 0;
        while i < self.teams.len()
            invariant
                i <= self.teams.len(),
                self.wf(),
                3 * n <= usize::MAX,
                forall|k: int| 0 <= k < i ==> entry_room(#[trigger] self@[k], n as nat),
            decreases self.teams.len() - i,
        {
            let t = &self.teams[i];
            assert(self@[i as int] == t@);
            assert(self@[i as int].stats.len() > 0);
            assert(t@.stats[0] == t.extra_stats@[0]);
            if t.extra_stats[0] > usize::MAX - 3 * n || t.matches_played > usize::MAX - n
                || t.record.wins > usize::MAX - n || t.record.losses > usize::MAX - n
                || t.record.ties > usize::MAX - n {
                return false;
            }
            i += 1;
        }
        true
    }

    /// The place of the team with this key, if it stands in the list.
    pub fn find(&self, key: &str) -> (place: Option<usize>)
        ensures
            match place {
                Some(i) => i < self.teams.len() && self@[i as int].key == key@,
                None => !has_key(self@, key@),
            },
            self.wf() && place.is_some() ==> place.unwrap() == index_of(self@, key@),
    {
        let mut i: usize = 0;
        while i < self.teams.len()
            invariant
                i <= self.teams.len(),
                forall|k: int| 0 <= k < i ==> (#[trigger] self@[k]).key != key@,
            decreases self.teams.len() - i,
        {
            if text_equal(self.teams[i].team_key.as_str(), key) {
                assert(self@[i as int].key == key@);
                return Some(i);
            }
            i += 1;
        }
        None
    }

    /// The place of the team with this key; a team that was not in the list gets a fresh
    /// ranking at its end.
    pub fn entry(&mut self, key: &str) -> (place: usize)
        requires
            old(self).wf(),
        ensures
            final(self).wf(),
            final(self)@ == with_entry(old(self)@, key@),
            place == index_of(final(self)@, key@),
            place < final(self).teams.len(),
            final(self)@[place as int].key == key@,
            final(self).preloaded == old(self).preloaded,
            forall|n: nat| old(self).room_for(n) ==> #[trigger] final(self).room_for(n),
    {
        match self.find(key) {
            Some(i) => i,
            None => {
                let ranking = TeamEventRanking::new(key);
                assert(ranking@ == fresh(key@)) by {
                    assert(ranking@.stats =~= seq![0nat]);
                }
                self.teams.push(ranking);
                assert(final(self)@ =~= old(self)@.push(fresh(key@)));
                let place = self.teams.len() - 1;
                assert(final(self)@[place as int].key == key@);
                place
            },
        }
    }

    /// Counts one more match with the given result for the team with this key.
    pub fn record(&mut self, key: &str, result: Outcome)
        requires
            old(self).wf(),
            old(self).room_for(1),
        ensures
            final(self).wf(),
            final(self)@ == recorded(old(self)@, key@, result),
            final(self).preloaded == old(self).preloaded,
            forall|n: nat| old(self).room_for(n + 1) ==> #[trigger] final(self).room_for(n),
    {
        let place = self.entry(key);
        let ghost list = self@;
        assert(entry_room(list[place as int], 1));
        assert(list[place as int].stats.len() > 0);
        assert(self.teams[place as int]@ == list[place as int]);
        assert(self.teams[place as int]@.stats[0] == self.teams[place as int].extra_stats@[0]);
        let ghost before = self.teams[place as int];
        match result {
            Outcome::Win => self.teams[place].add_win(),
            Outcome::Loss => self.teams[place].add_loss(),
            Outcome::Tie => self.teams[place].add_draw(),
        }
        proof {
            let after = self.teams[place as int];
            assert(after@.stats =~= counted(before@, result).stats);
            assert(after@ == counted(before@, result));
            assert(self@ =~= list.update(place as int, counted(list[place as int], result)));
            assert forall|n: nat| old(self).room_for(n + 1) implies #[trigger] final(self).room_for(
                n,
            ) by {
                assert forall|i: int| 0 <= i < self@.len() implies entry_room(
                    #[trigger] self@[i],
                    n,
                ) by {
                    if i == place {
                        if i < old(self)@.len() {
                            assert(entry_room(old(self)@[i], n + 1));
                        }
                    } else {
                        assert(entry_room(old(self)@[i], n + 1));
                    }
                }
            }
        }
    }

    /// Counts a bonus point for the team with this key.
    pub fn award_extra(&mut self, key: &str)
        requires
            old(self).wf(),
            old(self).room_for(1),
        ensures
            final(self).wf(),
            final(self)@ == extra_recorded(old(self)@, key@),
            final(self).preloaded == old(self).preloaded,
            forall|n: nat| old(self).room_for(n + 1) ==> #[trigger] final(self).room_for(n),
    {
        let place = self.entry(key);
        let ghost list = self@;
        assert(entry_room(list[place as int], 1));
        assert(list[place as int].stats.len() > 0);
        assert(self.teams[place as int]@ == list[place as int]);
        assert(self.teams[place as int]@.stats[0] == self.teams[place as int].extra_stats@[0]);
        let ghost before = self.teams[place as int];
        self.teams[place].add_extra();
        proof {
            let after = self.teams[place as int];
            assert(after@.stats =~= awarded(before@).stats);
            assert(after@ == awarded(before@));
            assert(self@ =~= list.update(place as int, awarded(list[place as int])));
            assert forall|n: nat| old(self).room_for(n + 1) implies #[trigger] final(self).room_for(
                n,
            ) by {
                assert forall|i: int| 0 <= i < self@.len() implies entry_room(
                    #[trigger] self@[i],
                    n,
                ) by {
                    if i == place {
                        if i < old(self)@.len() {
                            assert(entry_room(old(self)@[i], n + 1));
                        }
                    } else {
                        assert(entry_room(old(self)@[i], n + 1));
                    }
                }
            }
        }
    }

    /// Counts one more match with the given result for each team of an alliance.
    pub fn record_alliance(&mut self, teams: &Vec<String>, result: Outcome)
        requires
            old(self).wf(),
            old(self).room_for(teams@.len()),
        ensures
            final(self).wf(),
            final(self)@ == alliance_recorded(old(self)@, crate::models::keys_of(teams@), result),
            final(self).preloaded == old(self).preloaded,
            forall|n: nat|
                old(self).room_for(n + teams@.len()) ==> #[trigger] final(self).room_for(n),
    {
        let ghost keys = crate::models::keys_of(teams@);
        let ghost start = *self;
        let mut i: usize = 0;
        assert(keys.take(0) =~= Seq::<Seq<char>>::empty());
        while i < teams.len()
            invariant
                i <= teams.len(),
                keys == crate::models::keys_of(teams@),
                self.wf(),
                self.preloaded == start.preloaded,
                self@ == alliance_recorded(start@, keys.take(i as int), result),
                forall|n: nat| start.room_for(n + i as nat) ==> #[trigger] self.room_for(n),
                start.room_for(teams@.len()),
            decreases teams.len() - i,
        {
            let ghost mid = *self;
            assert(start.room_for((teams@.len() - i) as nat + i as nat));
            assert(mid.room_for((teams@.len() - i) as nat));
            assert(mid.room_for(1));
            self.record(teams[i].as_str(), result);
            proof {
                assert(keys.take(i + 1).drop_last() =~= keys.take(i as int));
                assert(keys.take(i + 1).last() == teams[i as int]@);
                assert forall|n: nat| start.room_for(n + (i + 1) as nat) implies #[trigger] self.room_for(
                    n,
                ) by {
                    assert(start.room_for((n + 1) + i as nat));
                    assert(mid.room_for(n + 1));
                }
            }
            i += 1;
        }
        assert(keys.take(teams@.len() as int) =~= keys);
    }

    /// Counts a bonus point for each team of an alliance.
    pub fn award_alliance(&mut self, teams: &Vec<String>)
        requires
            old(self).wf(),
            old(self).room_for(teams@.len()),
        ensures
            final(self).wf(),
            final(self)@ == alliance_awarded(old(self)@, crate::models::keys_of(teams@)),
            final(self).preloaded == old(self).preloaded,
            forall|n: nat|
                old(self).room_for(n + teams@.len()) ==> #[trigger] final(self).room_for(n),
    {
        let ghost keys = crate::models::keys_of(teams@);
        let ghost start = *self;
        let mut i: usize = 0;
        assert(keys.take(0) =~= Seq::<Seq<char>>::empty());
        while i < teams.len()
            invariant
                i <= teams.len(),
                keys == crate::models::keys_of(teams@),
                self.wf(),
                self.preloaded == start.preloaded,
                self@ == alliance_awarded(start@, keys.take(i as int)),
                forall|n: nat| start.room_for(n + i as nat) ==> #[trigger] self.room_for(n),
                start.room_for(teams@.len()),
            decreases teams.len() - i,
        {
            let ghost mid = *self;
            assert(start.room_for((teams@.len() - i) as nat + i as nat));
            assert(mid.room_for((teams@.len() - i) as nat));
            assert(mid.room_for(1));
            self.award_extra(teams[i].as_str());
            proof {
                assert(keys.take(i + 1).drop_last() =~= keys.take(i as int));
                assert(keys.take(i + 1).last() == teams[i as int]@);
                assert forall|n: nat| start.room_for(n + (i + 1) as nat) implies #[trigger] self.room_for(
                    n,
                ) by {
                    assert(start.room_for((n + 1) + i as nat));
                    assert(mid.room_for(n + 1));
                }
            }
            i += 1;
        }
        assert(keys.take(teams@.len() as int) =~= keys);
    }

    /// Counts a match whose scores are known: the result for each red team, its mirror for
    /// each blue team.
    pub fn apply_played(&mut self, m: &Matche)
        requires
            old(self).wf(),
            old(self).room_for(6),
        ensures
            final(self).wf(),
            final(self).preloaded == old(self).preloaded,
            final(self)@ == alliance_recorded(
                alliance_recorded(
                    old(self)@,
                    m.red_keys(),
                    crate::models::outcome_of(m.red_score, m.blue_score),
                ),
                m.blue_keys(),
                crate::models::outcome_of(m.blue_score, m.red_score),
            ),
            forall|n: nat| old(self).room_for(n + 6) ==> #[trigger] final(self).room_for(n),
    {
        self.settle(m, m.actual_r());
    }

    /// Counts a match whose scores are known, unless the standings hold it already:
    /// standings that started from the archive's rankings count the matches played so far
    /// and stay as they are.
    pub fn settle_played(&mut self, m: &Matche)
        requires
            old(self).wf(),
            old(self).room_for(6),
        ensures
            final(self).wf(),
            final(self).preloaded == old(self).preloaded,
            final(self)@ == if old(self).preloaded {
                old(self)@
            } else {
                alliance_recorded(
                    alliance_recorded(
                        old(self)@,
                        m.red_keys(),
                        crate::models::outcome_of(m.red_score, m.blue_score),
                    ),
                    m.blue_keys(),
                    crate::models::outcome_of(m.blue_score, m.red_score),
                )
            },
            forall|n: nat| old(self).room_for(n + 6) ==> #[trigger] final(self).room_for(n),
    {
        if self.preloaded {
            assert forall|n: nat| old(self).room_for(n + 6) implies #[trigger] final(self).room_for(
                n,
            ) by {
                assert forall|i: int| 0 <= i < self@.len() implies entry_room(
                    #[trigger] self@[i],
                    n,
                ) by {
                    assert(entry_room(old(self)@[i], n + 6));
                }
            }
            return;
        }
        self.apply_played(m);
    }

    /// Counts a match whose result was drawn: a win for each team of the alliance that won,
    /// a loss for each team of the other.
    pub fn apply_simulated(&mut self, m: &Matche, red_won: bool)
        requires
            old(self).wf(),
            old(self).room_for(6),
        ensures
            final(self).wf(),
            final(self).preloaded == old(self).preloaded,
            final(self)@ == alliance_recorded(
                alliance_recorded(
                    old(self)@,
                    m.red_keys(),
                    if red_won {
                        Outcome::Win
                    } else {
                        Outcome::Loss
                    },
                ),
                m.blue_keys(),
                if red_won {
                    Outcome::Loss
                } else {
                    Outcome::Win
                },
            ),
            forall|n: nat| old(self).room_for(n + 6) ==> #[trigger] final(self).room_for(n),
    {
        self.settle(
            m,
            if red_won {
                Outcome::Win
            } else {
                Outcome::Loss
            },
        );
    }

    fn settle(&mut self, m: &Matche, red: Outcome)
        requires
            old(self).wf(),
            old(self).room_for(6),
        ensures
            final(self).wf(),
            final(self).preloaded == old(self).preloaded,
            final(self)@ == alliance_recorded(
                alliance_recorded(old(self)@, m.red_keys(), red),
                m.blue_keys(),
                red.mirror(),
            ),
            forall|n: nat| old(self).room_for(n + 6) ==> #[trigger] final(self).room_for(n),
    {
        let red_teams = m.get_red();
        let blue_teams = m.get_blue();
        let ghost r = red_teams@.len();
        let ghost b = blue_teams@.len();
        assert(crate::models::keys_of(red_teams@).len() == r);
        assert(crate::models::keys_of(blue_teams@).len() == b);
        assert(r <= 3 && b <= 3);
        assert(old(self).room_for(r)) by {
            assert forall|i: int| 0 <= i < old(self)@.len() implies entry_room(
                #[trigger] old(self)@[i],
                r,
            ) by {
                assert(entry_room(old(self)@[i], 6));
            }
        }
        assert(old(self).room_for(3 + r)) by {
            assert forall|i: int| 0 <= i < old(self)@.len() implies entry_room(
                #[trigger] old(self)@[i],
                3 + r,
            ) by {
                assert(entry_room(old(self)@[i], 6));
            }
        }
        self.record_alliance(&red_teams, red);
        let ghost mid = *self;
        assert(mid.room_for(3));
        assert(mid.room_for(b)) by {
            assert forall|i: int| 0 <= i < mid@.len() implies entry_room(#[trigger] mid@[i], b) by {
                assert(entry_room(mid@[i], 3));
            }
        }
        self.record_alliance(&blue_teams, red.mirror());
        proof {
            assert forall|n: nat| old(self).room_for(n + 6) implies #[trigger] final(self).room_for(
                n,
            ) by {
                assert(old(self).room_for((n + 6 - r) as nat + r)) ;
                assert(mid.room_for((n + 6 - r) as nat));
                assert(mid.room_for(n + b)) by {
                    assert forall|i: int| 0 <= i < mid@.len() implies entry_room(
                        #[trigger] mid@[i],
                        n + b,
                    ) by {
                        assert(entry_room(mid@[i], (n + 6 - r) as nat));
                    }
                }
            }
        }
    }

    /// How often the team with this key has earned the bonus point so far; a team that is
    /// not in the standings has played nothing and earned nothing.
    pub fn extra_rate(&self, key: &str) -> (rate: ExtraRate)
        requires
            self.wf(),
        ensures
            rate.earned <= rate.played,
            rate == if has_key(self@, key@) {
                rate_of(self@[index_of(self@, key@)])
            } else {
                (ExtraRate { earned: 0, played: 0 })
            },
    {
        match self.find(key) {
            Some(i) => {
                let t = &self.teams[i];
                assert(self@[i as int] == t@);
                assert(t@.stats.len() > 0);
                assert(t@.stats[0] == t.extra_stats@[0]);
                let total: u128 = t.extra_stats[0] as u128;
                let worth: u128 = 2 * (t.record.wins as u128) + t.record.ties as u128;
                let played: usize = t.matches_played;
                if total > worth && total - worth < played as u128 {
                    ExtraRate { earned: (total - worth) as usize, played }
                } else if total > worth {
                    ExtraRate { earned: played, played }
                } else {
                    ExtraRate { earned: 0, played }
                }
            },
            None => ExtraRate { earned: 0, played: 0 },
        }
    }

    /// Puts a ranking into the standings, in place of the team's earlier ranking if it has
    /// one. A ranking without a total of ranking points gets what its record is worth.
    pub fn insert(&mut self, ranking: TeamEventRanking)
        requires
            old(self).wf(),
            ranking.points() <= usize::MAX,
        ensures
            final(self).wf(),
            final(self)@ == inserted(old(self)@, ranking@),
            final(self).preloaded == old(self).preloaded,
    {
        let mut ranking = ranking;
        let ghost given = ranking@;
        ranking.to_usize();
        assert(ranking@ == normalised(given)) by {
            assert(ranking@.stats =~= normalised(given).stats);
        }
        match self.find(ranking.team_key.as_str()) {
            Some(i) => {
                self.teams[i] = ranking;
                assert(final(self)@ =~= old(self)@.update(i as int, normalised(given)));
            },
            None => {
                self.teams.push(ranking);
                assert(final(self)@ =~= old(self)@.push(normalised(given)));
            },
        }
    }

    /// The standings that the archive's rankings give. They count as preloaded where the
    /// archive listed any ranking.
    pub fn from_snapshot(entries: Vec<TeamEventRanking>) -> (standings: Standings)
        requires
            forall|i: int| 0 <= i < entries@.len() ==> (#[trigger] entries@[i]).points() <= usize::MAX,
        ensures
            standings.wf(),
            standings@ == loaded(models_of(entries@)),
            standings.preloaded == (entries@.len() > 0),
    {
        let ghost all = entries@;
        let preloaded = entries.len() > 0;
        let mut standings = Standings { teams: Vec::new(), preloaded };
        assert(standings@ =~= Seq::<RankingModel>::empty());
        assert(models_of(all.take(0)) =~= Seq::<RankingModel>::empty());
        for e in it: entries
            invariant
                it.seq() == all,
                standings.wf(),
                standings.preloaded == preloaded,
                standings@ == loaded(models_of(all.take(it.index() as int))),
                forall|i: int| 0 <= i < all.len() ==> (#[trigger] all[i]).points() <= usize::MAX,
        {
            proof {
                let next = models_of(all.take(it.index() + 1));
                assert(next.drop_last() =~= models_of(all.take(it.index() as int)));
                assert(next.last() == e@);
                assert(e == all[it.index() as int]);
            }
            standings.insert(e);
        }
        assert(all.take(all.len() as int) =~= all);
        standings
    }

    /// The teams in the order of their rank: by ranking points, then by the secondary
    /// statistic, the higher first; teams tied in both stay in the order of the standings.
    pub fn ranked(&self) -> (order: Vec<Placing>)
        requires
            self.wf(),
        ensures
            order@ == stably_sorted(placings_of(self.teams@)),
            order@.len() == self.teams@.len(),
            forall|i: int, j: int|
                0 <= i < j < order@.len() ==> (#[trigger] order@[i]).key@ != (
                #[trigger] order@[j]).key@,
            forall|i: int, j: int|
                0 <= i < j < order@.len() ==> (#[trigger] order@[j]).points <= (
                #[trigger] order@[i]).points,
    {
        let mut list: Vec<Placing> = Vec::new();
        let mut i: usize = 0;
        while i < self.teams.len()
            invariant
                i <= self.teams.len(),
                self.wf(),
                list@ == placings_of(self.teams@.take(i as int)),
            decreases self.teams.len() - i,
        {
            let t = &self.teams[i];
            assert(self@[i as int] == t@);
            assert(t@.stats.len() > 0);
            list.push(
                Placing { key: t.team_key.clone(), points: t.extra_stats[0], secondary: t.secondary },
            );
            assert(list@ =~= placings_of(self.teams@.take(i + 1)));
            i += 1;
        }
        assert(self.teams@.take(self.teams@.len() as int) =~= self.teams@);
        let ghost unsorted = list@;
        let order = stable_sort(list);
        proof {
            let places = crate::sorting::stable_order(unsorted);
            assert forall|i: int, j: int| 0 <= i < j < order@.len() implies (#[trigger] order@[i]).key@
                != (#[trigger] order@[j]).key@ by {
                assert(crate::sorting::placed_before(unsorted, places[i], places[j]));
                crate::sorting::lemma_placed_before_asymmetric(unsorted, places[i], places[j]);
                let a = places[i];
                let b = places[j];
                assert(a != b);
                assert(self@[a].key == unsorted[a].key@);
                assert(self@[b].key == unsorted[b].key@);
                if a < b {
                    assert(self@[a].key != self@[b].key);
                } else {
                    assert(self@[b].key != self@[a].key);
                }
            }
            assert forall|i: int, j: int| 0 <= i < j < order@.len() implies (#[trigger] order@[j]).points
                <= (#[trigger] order@[i]).points by {
                assert(crate::sorting::placed_before(unsorted, places[i], places[j]));
                crate::sorting::lemma_placed_before_asymmetric(unsorted, places[i], places[j]);
            }
        }
        order
    }
}

/// A team with what ranks it at the end of a run.
pub struct Placing {
    pub key: String,
    pub points: usize,
    pub secondary: i64,
}

/// Teams are ranked by ranking points and then by the secondary statistic, the higher first.
impl Ranked for Placing {
    open spec fn ranks_before(&self, other: &Self) -> bool {
        self.points > other.points || (self.points == other.points && self.secondary
            > other.secondary)
    }

    fn comes_before(&self, other: &Self) -> (first: bool) {
        self.points > other.points || (self.points == other.points && self.secondary
            > other.secondary)
    }

    proof fn lemma_asymmetric(a: &Self, b: &Self) {
    }

    proof fn lemma_splits(a: &Self, b: &Self, c: &Self) {
    }
}

/// What ranks a team of the standings.
pub open spec fn placing_of(t: TeamEventRanking) -> Placing {
    Placing { key: t.team_key, points: t.points() as usize, secondary: t.secondary }
}

/// What ranks each team of the standings.
pub open spec fn placings_of(teams: Seq<TeamEventRanking>) -> Seq<Placing> {
    teams.map_values(|t: TeamEventRanking| placing_of(t))
}

} // verus!
