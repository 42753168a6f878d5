//! The season that a replay is in, and the boundaries that it crosses on its way: the year
//! of an event, the first playoff match of an event, the matches of a given year.

use crate::text::{
    chars_of, contains, decimal, decimal_chars, ends_with, text_contains, text_ends_with,
};
use vstd::prelude::*;

verus! {

/// The year that a replay has reached, and the year in which it began.
#[derive(Debug, Clone, Copy, PartialEq, Eq, Structural)]
pub struct Season {
    pub start_year: usize,
    pub current_year: usize,
}

/// Whether an id names the year: the year's decimal form stands somewhere in it.
pub open spec fn names_year(id: Seq<char>, year: nat) -> bool {
    text_contains(id, decimal(year))
}

/// The end of the id of the match that opens the playoffs of an event.
pub open spec fn playoff_opener_tag() -> Seq<char> {
    seq!['q', 'f', '1', 'm', '1']
}

/// Decides `names_year`.
pub fn in_year(id: &str, year: usize) -> (named: bool)
    ensures
        named == names_year(id@, year as nat),
{
    let hay = chars_of(id);
    let needle = decimal_chars(year);
    contains(&hay, &needle)
}

/// Whether a match opens the playoffs of its event: its id ends with the tag of the first
/// match of the first quarterfinal. The rating period of the qualification rounds is closed
/// before this match.
pub fn is_playoff_opener(match_id: &str) -> (opens: bool)
    ensures
        opens == text_ends_with(match_id@, playoff_opener_tag()),
{
    let hay = chars_of(match_id);
    let mut tag: Vec<char> = Vec::new();
    tag.push('q');
    tag.push('f');
    tag.push('1');
    tag.push('m');
    tag.push('1');
    assert(tag@ =~= playoff_opener_tag());
    ends_with(&hay, &tag)
}

impl Season {
    /// How many years the replay is past the year in which it began, if it is not before it.
    pub open spec fn spec_year_index(&self) -> Option<usize> {
        if self.current_year >= self.start_year {
            Some((self.current_year - self.start_year) as usize)
        } else {
            None
        }
    }

    /// A replay at the beginning of its first year.
    pub fn new(start_year: usize) -> (season: Season)
        ensures
            season.start_year == start_year,
            season.current_year == start_year,
    {
        Season { start_year, current_year: start_year }
    }

    /// Moves on to the next year.
    pub fn new_year(&mut self)
        requires
            old(self).current_year < usize::MAX,
        ensures
            final(self).current_year == old(self).current_year + 1,
            final(self).start_year == old(self).start_year,
    {
        self.current_year = self.current_year + 1;
    }

    /// Enters an event whose matches are about to be replayed. An event whose id does not
    /// name the current year is the first of the next one: the season moves on by one year,
    /// and the ratings are to be rolled over before any of its matches.
    pub fn enter_event(&mut self, event_id: &str) -> (rollover: bool)
        requires
            old(self).current_year < usize::MAX,
        ensures
            rollover == !names_year(event_id@, old(self).current_year as nat),
            final(self).current_year == if rollover {
                old(self).current_year + 1
            } else {
                old(self).current_year as int
            },
            final(self).start_year == old(self).start_year,
    {
        if in_year(event_id, self.current_year) {
            false
        } else {
            self.new_year();
            true
        }
    }

    /// How many years the replay is past the year in which it began.
    #[verifier::when_used_as_spec(spec_year_index)]
    pub fn year_index(&self) -> (index: Option<usize>)
        ensures
            index == self.spec_year_index(),
    {
        if self.current_year >= self.start_year {
            Some(self.current_year - self.start_year)
        } else {
            None
        }
    }
}

} // verus!
