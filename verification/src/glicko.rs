//! The rating period of a team in the deviation-based rating: the results of the current
//! event, held back until the event closes, and the week in which the team last played.

use crate::models::Outcome;
use vstd::prelude::*;

verus! {

/// The weeks that count as passed between two seasons.
pub const GAP_WEEKS: u32 = 12;

/// The results that a team has gathered in the current event, each with the opposing
/// alliance as it was rated at the time, and the week of the team's last event.
pub struct RatingPeriod<S> {
    pub results: Vec<Outcome>,
    pub opponents: Vec<S>,
    pub last_week: i32,
}

/// The weeks that have passed from `last_week` to `week`, if any have.
pub open spec fn weeks_between(last_week: i32, week: i32) -> Option<u32> {
    if week - last_week > 0 {
        Some((week - last_week) as u32)
    } else {
        None
    }
}

impl<S> RatingPeriod<S> {
    /// Every result has its opponent.
    pub open spec fn wf(&self) -> bool {
        self.results@.len() == self.opponents@.len()
    }

    /// A period without results, before the first week.
    pub fn new() -> (period: RatingPeriod<S>)
        ensures
            period.wf(),
            period.results@.len() == 0,
            period.opponents@.len() == 0,
            period.last_week == 0,
    {
        RatingPeriod { results: Vec::new(), opponents: Vec::new(), last_week: 0 }
    }

    /// Holds back one more result against the given opponent.
    pub fn push(&mut self, result: Outcome, opponent: S)
        requires
            old(self).wf(),
        ensures
            final(self).wf(),
            final(self).results@ == old(self).results@.push(result),
            final(self).opponents@ == old(self).opponents@.push(opponent),
            final(self).last_week == old(self).last_week,
    {
        self.results.push(result);
        self.opponents.push(opponent);
    }

    /// Closes the period: the results that were held back are gone.
    pub fn close(&mut self)
        ensures
            final(self).wf(),
            final(self).results@.len() == 0,
            final(self).opponents@.len() == 0,
            final(self).last_week == old(self).last_week,
    {
        self.results.clear();
        self.opponents.clear();
    }

    /// Begins an event in the given week. Where weeks have passed since the team's last
    /// event, their number is returned, by which the team's deviation is to grow, and the
    /// week is noted; otherwise nothing changes.
    pub fn start_event(&mut self, week: i32) -> (elapsed: Option<u32>)
        ensures
            elapsed == weeks_between(old(self).last_week, week),
            final(self).last_week == if elapsed.is_some() {
                week
            } else {
                old(self).last_week
            },
            final(self).results@ == old(self).results@,
            final(self).opponents@ == old(self).opponents@,
    {
        let passed: i64 = week as i64 - self.last_week as i64;
        if passed <= 0 {
            None
        } else {
            self.last_week = week;
            Some(passed as u32)
        }
    }

    /// Turns to a new season: the team has played in no week of it yet. The deviation is to
    /// grow by the weeks of the gap between seasons, which are returned.
    pub fn new_year(&mut self) -> (gap: u32)
        ensures
            gap == GAP_WEEKS,
            final(self).last_week == 0,
            final(self).results@ == old(self).results@,
            final(self).opponents@ == old(self).opponents@,
    {
        self.last_week = 0;
        GAP_WEEKS
    }
}

} // verus!
