//! The order in which events and their matches are replayed, and what is left out of it.

use crate::models::{Event, Matche};
use crate::sorting::{stable_sort, stably_sorted, Ranked};
use crate::text::{
    chars_of, comes_first, lemma_text_order_total, lemma_text_order_transitive, text_before,
    text_equal,
};
use vstd::prelude::*;

verus! {

/// The rank of a competition level that is none of the four known ones.
pub const OTHER_LEVEL_RANK: u8 = 100;

/// The event type from which on an event is unofficial.
pub const FIRST_UNRATED_TYPE: i32 = 99;

/// The rank of a competition level: qualification, quarterfinal, semifinal, final, and
/// everything else behind them.
pub open spec fn level_rank(level: Seq<char>) -> int {
    if level == "qm"@ {
        0
    } else if level == "qf"@ {
        1
    } else if level == "sf"@ {
        2
    } else if level == "f"@ {
        3
    } else {
        OTHER_LEVEL_RANK as int
    }
}

/// Computes the rank of a competition level.
pub fn rank_of_level(level: &str) -> (rank: u8)
    ensures
        rank == level_rank(level@),
{
    if text_equal(level, "qm") {
        0
    } else if text_equal(level, "qf") {
        1
    } else if text_equal(level, "sf") {
        2
    } else if text_equal(level, "f") {
        3
    } else {
        OTHER_LEVEL_RANK
    }
}

/// Within an event, matches are ranked by competition level and then by match number.
impl Ranked for Matche {
    open spec fn ranks_before(&self, other: &Self) -> bool {
        level_rank(self.comp_level@) < level_rank(other.comp_level@) || (level_rank(
            self.comp_level@,
        ) == level_rank(other.comp_level@) && self.match_number < other.match_number)
    }

    fn comes_before(&self, other: &Self) -> (first: bool) {
        let own = rank_of_level(self.comp_level.as_str());
        let others = rank_of_level(other.comp_level.as_str());
        own < others || (own == others && self.match_number < other.match_number)
    }

    proof fn lemma_asymmetric(a: &Self, b: &Self) {
    }

    proof fn lemma_splits(a: &Self, b: &Self, c: &Self) {
    }
}

/// Whether two matches are tied in the replay order.
pub open spec fn same_slot(a: Matche, b: Matche) -> bool {
    level_rank(a.comp_level@) == level_rank(b.comp_level@) && a.match_number == b.match_number
}

/// The match order is a strict total order on the pairs of level rank and match number: of two
/// matches at most one ranks before the other, exactly the tied ones are unranked, and the
/// order is transitive.
pub proof fn lemma_match_order_is_total(a: Matche, b: Matche, c: Matche)
    ensures
        !(a.ranks_before(&b) && b.ranks_before(&a)),
        a.ranks_before(&b) || b.ranks_before(&a) || same_slot(a, b),
        same_slot(a, b) ==> !a.ranks_before(&b) && !b.ranks_before(&a),
        a.ranks_before(&b) && b.ranks_before(&c) ==> a.ranks_before(&c),
        same_slot(a, b) && same_slot(b, c) ==> same_slot(a, c),
{
}

/// Events are ranked by start date, then by event type, then by id.
impl Ranked for Event {
    open spec fn ranks_before(&self, other: &Self) -> bool {
        text_before(self.start_date@, other.start_date@) || (self.start_date@ == other.start_date@
            && (self.event_type < other.event_type || (self.event_type == other.event_type
            && text_before(self.id@, other.id@))))
    }

    fn comes_before(&self, other: &Self) -> (first: bool) {
        let own_date = chars_of(self.start_date.as_str());
        let other_date = chars_of(other.start_date.as_str());
        if comes_first(&own_date, &other_date) {
            return true;
        }
        if !text_equal(self.start_date.as_str(), other.start_date.as_str()) {
            return false;
        }
        if self.event_type != other.event_type {
            return self.event_type < other.event_type;
        }
        let own_id = chars_of(self.id.as_str());
        let other_id = chars_of(other.id.as_str());
        comes_first(&own_id, &other_id)
    }

    proof fn lemma_asymmetric(a: &Self, b: &Self) {
        lemma_text_order_total(a.start_date@, b.start_date@);
        lemma_text_order_total(a.id@, b.id@);
    }

    proof fn lemma_splits(a: &Self, b: &Self, c: &Self) {
        lemma_text_order_total(a.start_date@, b.start_date@);
        lemma_text_order_total(b.start_date@, c.start_date@);
        lemma_text_order_total(a.start_date@, c.start_date@);
        lemma_text_order_total(a.id@, b.id@);
        lemma_text_order_total(b.id@, c.id@);
        lemma_text_order_total(a.id@, c.id@);
        if text_before(a.start_date@, c.start_date@) && text_before(c.start_date@, b.start_date@) {
            lemma_text_order_transitive(a.start_date@, c.start_date@, b.start_date@);
        }
        if text_before(b.start_date@, a.start_date@) && text_before(a.start_date@, c.start_date@) {
            lemma_text_order_transitive(b.start_date@, a.start_date@, c.start_date@);
        }
        if text_before(a.id@, c.id@) && text_before(c.id@, b.id@) {
            lemma_text_order_transitive(a.id@, c.id@, b.id@);
        }
        if text_before(b.id@, a.id@) && text_before(a.id@, c.id@) {
            lemma_text_order_transitive(b.id@, a.id@, c.id@);
        }
    }
}

/// Whether two events are tied in the replay order.
pub open spec fn same_start(a: Event, b: Event) -> bool {
    a.start_date@ == b.start_date@ && a.event_type == b.event_type && a.id@ == b.id@
}

/// The event order is a strict total order on the triples of start date, event type and id:
/// of two events at most one ranks before the other, exactly the tied ones are unranked,
/// and the order is transitive.
pub proof fn lemma_event_order_is_total(a: Event, b: Event, c: Event)
    ensures
        !(a.ranks_before(&b) && b.ranks_before(&a)),
        a.ranks_before(&b) || b.ranks_before(&a) || same_start(a, b),
        same_start(a, b) ==> !a.ranks_before(&b) && !b.ranks_before(&a),
        a.ranks_before(&b) && b.ranks_before(&c) ==> a.ranks_before(&c),
{
    lemma_text_order_total(a.start_date@, b.start_date@);
    lemma_text_order_total(a.id@, b.id@);
    if a.ranks_before(&b) && b.ranks_before(&c) {
        Event::lemma_splits(&a, &c, &b);
        if c.ranks_before(&b) {
            Event::lemma_asymmetric(&b, &c);
        }
    }
}

/// Whether an event counts for the ratings: it is official and of a regular type.
pub open spec fn rated(event: Event) -> bool {
    event.official == 1 && event.event_type < FIRST_UNRATED_TYPE
}

/// Decides `rated`.
pub fn is_rated(event: &Event) -> (keep: bool)
    ensures
        keep == rated(*event),
{
    event.official == 1 && event.event_type < FIRST_UNRATED_TYPE
}

/// Whether a match has been played: both alliances have a score.
pub fn is_played(m: &Matche) -> (keep: bool)
    ensures
        keep == m.played(),
{
    m.red_score >= 0 && m.blue_score >= 0
}

/// The played matches of a list, in the order of the list.
pub open spec fn played_of(matches: Seq<Matche>) -> Seq<Matche> {
    matches.filter(|m: Matche| m.played())
}

/// The rated events of a list, in the order of the list.
pub open spec fn rated_of(events: Seq<Event>) -> Seq<Event> {
    events.filter(|e: Event| rated(e))
}

/// Drops the matches that have not been played.
pub fn played_matches(matches: Vec<Matche>) -> (kept: Vec<Matche>)
    ensures
        kept@ == played_of(matches@),
{
    let ghost all = matches@;
    let mut kept: Vec<Matche> = Vec::new();
    proof {
        reveal(Seq::filter);
    }
    for m in it: matches
        invariant
            it.seq() == all,
            kept@ == played_of(all.take(it.index() as int)),
    {
        proof {
            reveal(Seq::filter);
            assert(all.take(it.index() + 1).drop_last() =~= all.take(it.index() as int));
        }
        if is_played(&m) {
            kept.push(m);
        }
    }
    assert(all.take(all.len() as int) =~= all);
    kept
}

/// Drops the events that do not count for the ratings.
pub fn rated_events(events: Vec<Event>) -> (kept: Vec<Event>)
    ensures
        kept@ == rated_of(events@),
{
    let ghost all = events@;
    let mut kept: Vec<Event> = Vec::new();
    proof {
        reveal(Seq::filter);
    }
    for e in it: events
        invariant
            it.seq() == all,
            kept@ == rated_of(all.take(it.index() as int)),
    {
        proof {
            reveal(Seq::filter);
            assert(all.take(it.index() + 1).drop_last() =~= all.take(it.index() as int));
        }
        if is_rated(&e) {
            kept.push(e);
        }
    }
    assert(all.take(all.len() as int) =~= all);
    kept
}

/// The matches of one event in replay order: the unplayed ones are dropped, the others sorted
/// by level and match number, tied matches in the order given.
pub fn order_matches(matches: Vec<Matche>) -> (ordered: Vec<Matche>)
    ensures
        ordered@ == stably_sorted(played_of(matches@)),
        forall|i: int| 0 <= i < ordered.len() ==> (#[trigger] ordered[i]).played(),
{
    let ghost all = matches@;
    let kept = played_matches(matches);
    let ordered = stable_sort(kept);
    proof {
        assert forall|i: int| 0 <= i < ordered.len() implies (#[trigger] ordered[i]).played() by {
            let k = crate::sorting::stable_order(kept@)[i];
            assert(ordered[i] == kept[k]);
            assert(played_of(all).contains(kept[k]));
            all.lemma_filter_contains_rev(|m: Matche| m.played(), kept[k]);
        }
    }
    ordered
}

/// The events in replay order: those that do not count are dropped, the others sorted by
/// start date, event type and id.
pub fn order_events(events: Vec<Event>) -> (ordered: Vec<Event>)
    ensures
        ordered@ == stably_sorted(rated_of(events@)),
        forall|i: int| 0 <= i < ordered.len() ==> rated(#[trigger] ordered[i]),
{
    let ghost all = events@;
    let kept = rated_events(events);
    let ordered = stable_sort(kept);
    proof {
        assert forall|i: int| 0 <= i < ordered.len() implies rated(#[trigger] ordered[i]) by {
            let k = crate::sorting::stable_order(kept@)[i];
            assert(ordered[i] == kept[k]);
            assert(rated_of(all).contains(kept[k]));
            all.lemma_filter_contains_rev(|e: Event| rated(e), kept[k]);
        }
    }
    ordered
}

} // verus!
