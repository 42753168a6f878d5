//! What many simulated runs of an event add up to for each team.

use crate::sorting::{stable_sort, stably_sorted, Ranked};
use crate::standings::{placings_of, Placing, Standings};
use crate::text::text_equal;
use vstd::prelude::*;

verus! {

/// The number of places at the top that count as a top finish.
pub const TOP_PLACES: usize = 8;

/// The sums of one team over the runs counted so far.
pub struct TeamTally {
    pub key: String,
    /// The ranking points of all runs together.
    pub points: u128,
    /// The finishing ranks of all runs together; the first rank is 1.
    pub rank_sum: u128,
    /// The runs that the team finished first.
    pub top1: usize,
    /// The runs that the team finished among the top places.
    pub top8: usize,
}

/// The sums of one team, as plain numbers.
pub struct TallyModel {
    pub key: Seq<char>,
    pub points: nat,
    pub rank_sum: nat,
    pub top1: nat,
    pub top8: nat,
}

impl View for TeamTally {
    type V = TallyModel;

    open spec fn view(&self) -> TallyModel {
        TallyModel {
            key: self.key@,
            points: self.points as nat,
            rank_sum: self.rank_sum as nat,
            top1: self.top1 as nat,
            top8: self.top8 as nat,
        }
    }
}

/// Teams are listed by their ranking points, the higher first, and then by their ranks, the
/// lower first. Over the same number of runs the sums order as the averages do.
impl Ranked for TeamTally {
    open spec fn ranks_before(&self, other: &Self) -> bool {
        self.points > other.points || (self.points == other.points && self.rank_sum
            < other.rank_sum)
    }

    fn comes_before(&self, other: &Self) -> (first: bool) {
        self.points > other.points || (self.points == other.points && self.rank_sum
            < other.rank_sum)
    }

    proof fn lemma_asymmetric(a: &Self, b: &Self) {
    }

    proof fn lemma_splits(a: &Self, b: &Self, c: &Self) {
    }
}

/// Whether a team with this key is in the list.
pub open spec fn tallied(models: Seq<TallyModel>, key: Seq<char>) -> bool {
    exists|i: int| 0 <= i < models.len() && (#[trigger] models[i]).key == key
}

/// The place of the team with this key in the list.
pub open spec fn tally_index(models: Seq<TallyModel>, key: Seq<char>) -> int {
    choose|i: int| 0 <= i < models.len() && (#[trigger] models[i]).key == key
}

/// The sums of a team before its first run.
pub open spec fn blank(key: Seq<char>) -> TallyModel {
    TallyModel { key, points: 0, rank_sum: 0, top1: 0, top8: 0 }
}

/// The sums of a team after one more run that it finished at `place`, counted from 0.
pub open spec fn credited(m: TallyModel, points: nat, place: nat) -> TallyModel {
    TallyModel {
        key: m.key,
        points: m.points + points,
        rank_sum: m.rank_sum + place + 1,
        top1: if place == 0 {
            m.top1 + 1
        } else {
            m.top1
        },
        top8: if place < TOP_PLACES {
            m.top8 + 1
        } else {
            m.top8
        },
    }
}

/// The list after the team with this key finished one more run at `place`.
pub open spec fn credit(models: Seq<TallyModel>, key: Seq<char>, points: nat, place: nat) -> Seq<
    TallyModel,
> {
    let list = if tallied(models, key) {
        models
    } else {
        models.push(blank(key))
    };
    let i = tally_index(list, key);
    list.update(i, credited(list[i], points, place))
}

/// The list after one more run that ended in the order of `placings`.
pub open spec fn trial_added(models: Seq<TallyModel>, placings: Seq<Placing>) -> Seq<TallyModel>
    decreases placings.len(),
{
    if placings.len() == 0 {
        models
    } else {
        credit(
            trial_added(models, placings.drop_last()),
            placings.last().key@,
            placings.last().points as nat,
            (placings.len() - 1) as nat,
        )
    }
}

/// The first finishes of all teams together.
pub open spec fn top1_total(models: Seq<TallyModel>) -> nat
    decreases models.len(),
{
    if models.len() == 0 {
        0
    } else {
        top1_total(models.drop_last()) + models.last().top1
    }
}

/// Whether no two placings are of the same team.
pub open spec fn distinct_placings(placings: Seq<Placing>) -> bool {
    forall|i: int, j: int|
        0 <= i < j < placings.len() ==> (#[trigger] placings[i]).key@ != (
        #[trigger] placings[j]).key@
}

/// Whether one of the first `upto` placings is of the team with this key.
pub open spec fn placed(placings: Seq<Placing>, upto: int, key: Seq<char>) -> bool {
    exists|j: int| 0 <= j < upto && (#[trigger] placings[j]).key@ == key
}

proof fn lemma_top1_total_update(models: Seq<TallyModel>, i: int, m: TallyModel)
    requires
        0 <= i < models.len(),
    ensures
        top1_total(models.update(i, m)) == top1_total(models) - models[i].top1 + m.top1,
    decreases models.len(),
{
    let changed = models.update(i, m);
    if i == models.len() - 1 {
        assert(changed.drop_last() =~= models.drop_last());
    } else {
        lemma_top1_total_update(models.drop_last(), i, m);
        assert(changed.drop_last() =~= models.drop_last().update(i, m));
    }
}

/// The sums of every team of an event over the runs counted so far.
pub struct Tally {
    pub trials: usize,
    pub teams: Vec<TeamTally>,
}

impl View for Tally {
    type V = Seq<TallyModel>;

    open spec fn view(&self) -> Seq<TallyModel> {
        self.teams@.map_values(|t: TeamTally| t@)
    }
}

/// Whether the sums of a team are what `trials` runs can give.
pub open spec fn within(m: TallyModel, trials: nat) -> bool {
    &&& m.top1 <= m.top8 <= trials
    &&& m.points <= trials * usize::MAX
    &&& m.rank_sum <= trials * usize::MAX
}

impl Tally {
    /// Every team is listed once; no team finished first more often than among the top
    /// places, nor there more often than runs were counted; and each run had one first.
    pub open spec fn wf(&self) -> bool {
        &&& forall|i: int, j: int|
            0 <= i < j < self@.len() ==> (#[trigger] self@[i]).key != (#[trigger] self@[j]).key
        &&& forall|i: int| 0 <= i < self@.len() ==> within(#[trigger] self@[i], self.trials as nat)
        &&& top1_total(self@) == self.trials
    }

    /// A tally without runs.
    pub fn new() -> (tally: Tally)
        ensures
            tally.wf(),
            tally.trials == 0,
            tally@ == Seq::<TallyModel>::empty(),
    {
        let tally = Tally { trials: 0, teams: Vec::new() };
        assert(tally@ =~= Seq::<TallyModel>::empty());
        tally
    }

    fn find(&self, key: &str) -> (place: Option<usize>)
        ensures
            match place {
                Some(i) => i < self.teams.len() && self@[i as int].key == key@,
                None => !tallied(self@, key@),
            },
    {
        let mut i: usize = 0;
        while i < self.teams.len()
            invariant
                i <= self.teams.len(),
                forall|k: int| 0 <= k < i ==> (#[trigger] self@[k]).key != key@,
            decreases self.teams.len() - i,
        {
            if text_equal(self.teams[i].key.as_str(), key) {
                assert(self@[i as int].key == key@);
                return Some(i);
            }
            i += 1;
        }
        None
    }

    /// Counts one more run, which ended in the order of `placings`: each team gets its
    /// ranking points and its rank, the first team a first finish, the first eight a top
    /// finish.
    pub fn add_trial(&mut self, placings: &Vec<Placing>)
        requires
            old(self).wf(),
            old(self).trials < usize::MAX,
            placings@.len() > 0,
            distinct_placings(placings@),
        ensures
            final(self).wf(),
            final(self).trials == old(self).trials + 1,
            final(self)@ == trial_added(old(self)@, placings@),
    {
        let ghost start = self@;
        let ghost runs = self.trials as nat;
        let mut i: usize = 0;
        assert(placings@.take(0) =~= Seq::<Placing>::empty());
        assert((runs + 1) * usize::MAX == runs * usize::MAX + usize::MAX) by (nonlinear_arith);
        assert(runs * usize::MAX + usize::MAX <= u128::MAX) by (nonlinear_arith)
            requires
                runs < usize::MAX,
                usize::MAX <= 0xffff_ffff_ffff_ffff,
        ;
        while i < placings.len()
            invariant
                i <= placings.len(),
                self.trials == runs,
                runs < usize::MAX,
                distinct_placings(placings@),
                runs * usize::MAX + usize::MAX <= u128::MAX,
                self@ == trial_added(start, placings@.take(i as int)),
                forall|a: int, b: int|
                    0 <= a < b < self@.len() ==> (#[trigger] self@[a]).key != (
                    #[trigger] self@[b]).key,
                forall|k: int|
                    0 <= k < self@.len() ==> {
                        let m = #[trigger] self@[k];
                        if placed(placings@, i as int, m.key) {
                            m.top1 <= m.top8 <= runs + 1 && m.points <= runs * usize::MAX
                                + usize::MAX && m.rank_sum <= runs * usize::MAX + usize::MAX
                        } else {
                            within(m, runs)
                        }
                    },
                top1_total(self@) == runs + (if i > 0 {
                    1nat
                } else {
                    0nat
                }),
            decreases placings.len() - i,
        {
            let p = &placings[i];
            let ghost before = self@;
            let found = self.find(p.key.as_str());
            let at: usize = match found {
                Some(k) => k,
                None => {
                    self.teams.push(
                        TeamTally { key: p.key.clone(), points: 0, rank_sum: 0, top1: 0, top8: 0 },
                    );
                    assert(self@ =~= before.push(blank(p.key@)));
                    assert(self@.drop_last() =~= before);
                    self.teams.len() - 1
                },
            };
            let ghost list = self@;
            proof {
                assert(list[at as int].key == p.key@);
                assert(tallied(list, p.key@));
                assert forall|k: int| 0 <= k < list.len() && list[k].key == p.key@ implies k
                    == at by {
                    if k < at {
                        assert(list[k].key != list[at as int].key);
                    } else if k > at {
                        assert(list[at as int].key != list[k].key);
                    }
                }
                assert(tally_index(list, p.key@) == at);
                assert(!placed(placings@, i as int, p.key@)) by {
                    if placed(placings@, i as int, p.key@) {
                        let j = choose|j: int| 0 <= j < i && (#[trigger] placings@[j]).key@ == p.key@;
                        assert(placings@[j].key@ != placings@[i as int].key@);
                    }
                }
                if found.is_some() {
                    assert(list[at as int] == before[at as int]);
                    assert(within(list[at as int], runs));
                } else {
                    assert(list[at as int] == blank(p.key@));
                    assert(0 <= runs * usize::MAX) by (nonlinear_arith)
                        requires
                            runs >= 0,
                    ;
                }
            }
            let ghost entry = list[at as int];
            assert(self.teams[at as int]@ == entry);
            let mut t = TeamTally {
                key: p.key.clone(),
                points: self.teams[at].points + p.points as u128,
                rank_sum: self.teams[at].rank_sum + (i as u128 + 1),
                top1: self.teams[at].top1,
                top8: self.teams[at].top8,
            };
            if i == 0 {
                t.top1 = t.top1 + 1;
            }
            if i < TOP_PLACES {
                t.top8 = t.top8 + 1;
            }
            assert(t@ == credited(entry, p.points as nat, i as nat));
            self.teams[at] = t;
            proof {
                assert(self@ =~= list.update(at as int, credited(entry, p.points as nat, i as nat)));
                let next = placings@.take(i + 1);
                assert(next.drop_last() =~= placings@.take(i as int));
                assert(next.last() == placings@[i as int]);
                assert(self@ == credit(before, p.key@, p.points as nat, i as nat));
                lemma_top1_total_update(list, at as int, credited(entry, p.points as nat, i as nat));
                if i > 0 {
                    assert(placed(placings@, i as int, placings@[0].key@));
                }
                assert forall|k: int| 0 <= k < self@.len() implies {
                    let m = #[trigger] self@[k];
                    if placed(placings@, i + 1, m.key) {
                        m.top1 <= m.top8 <= runs + 1 && m.points <= runs * usize::MAX + usize::MAX
                            && m.rank_sum <= runs * usize::MAX + usize::MAX
                    } else {
                        within(m, runs)
                    }
                } by {
                    let m = self@[k];
                    if k == at {
                        assert(placings@[i as int].key@ == m.key);
                        assert(placed(placings@, i + 1, m.key));
                    } else {
                        assert(m == list[k]);
                        if k < before.len() {
                            assert(m == before[k]);
                            if placed(placings@, i as int, m.key) {
                                let j = choose|j: int|
                                    0 <= j < i && (#[trigger] placings@[j]).key@ == m.key;
                                assert(placed(placings@, i + 1, m.key));
                            } else {
                                if placed(placings@, i + 1, m.key) {
                                    let j = choose|j: int|
                                        0 <= j < i + 1 && (#[trigger] placings@[j]).key@ == m.key;
                                    assert(j == i);
                                    assert(list[k].key != list[at as int].key);
                                }
                            }
                        }
                    }
                }
            }
            i += 1;
        }
        self.trials = self.trials + 1;
        proof {
            assert(placings@.take(placings@.len() as int) =~= placings@);
            assert forall|k: int| 0 <= k < self@.len() implies within(
                #[trigger] self@[k],
                self.trials as nat,
            ) by {
                let m = self@[k];
                assert(runs * usize::MAX <= (runs + 1) * usize::MAX) by (nonlinear_arith);
            }
        }
    }

    /// Counts one more run that ended with the given standings: the teams are ranked, and
    /// the run is added in that order.
    pub fn count_run(&mut self, standings: &Standings)
        requires
            old(self).wf(),
            old(self).trials < usize::MAX,
            standings.wf(),
            standings.teams@.len() > 0,
        ensures
            final(self).wf(),
            final(self).trials == old(self).trials + 1,
            final(self)@ == trial_added(old(self)@, stably_sorted(placings_of(standings.teams@))),
    {
        let order = standings.ranked();
        self.add_trial(&order);
    }

    /// The teams by their sums of ranking points, the higher first, and then by their sums of
    /// ranks, the lower first.
    pub fn into_table(self) -> (table: Vec<TeamTally>)
        ensures
            table@ == stably_sorted(self.teams@),
    {
        stable_sort(self.teams)
    }
}

/// Whatever runs were counted, no team finished first more often than among the top places
/// or there more often than runs were counted, and the first finishes of all teams together
/// are as many as the runs.
pub proof fn lemma_tally_bounds(tally: Tally)
    requires
        tally.wf(),
    ensures
        forall|i: int|
            0 <= i < tally@.len() ==> 0 <= (#[trigger] tally@[i]).top1 <= tally@[i].top8
                <= tally.trials,
        top1_total(tally@) == tally.trials,
{
}

} // verus!
