//! The steps of a replay: which matches are rated in which order, and where a year turns,
//! an event begins and a rating period closes between them.

use crate::models::{Event, Matche};
use crate::season::{in_year, is_playoff_opener, names_year, playoff_opener_tag};
use crate::text::text_ends_with;
use vstd::prelude::*;

verus! {

/// One step of a replay. Events and matches are named by their places in the lists that
/// the replay was planned from.
#[derive(Debug, Clone, Copy, PartialEq, Eq, Structural)]
pub enum Step {
    /// The ratings are rolled over to the next year.
    NewYear,
    /// An event begins.
    StartEvent { event: usize },
    /// The rating period of an event is closed.
    FinishEvent { event: usize },
    /// A match is rated.
    Match { event: usize, index: usize },
}

/// The steps for the first `upto` matches of an event: each match in turn, and before the
/// match that opens the playoffs the rating period is closed.
pub open spec fn match_steps(event: usize, matches: Seq<Matche>, upto: int) -> Seq<Step>
    decreases upto,
{
    if upto <= 0 {
        Seq::empty()
    } else {
        let index = upto - 1;
        let before = match_steps(event, matches, index);
        let flushed = if text_ends_with(matches[index].id@, playoff_opener_tag()) {
            before.push(Step::FinishEvent { event })
        } else {
            before
        };
        flushed.push(Step::Match { event, index: index as usize })
    }
}

/// The steps for an event: it begins, its matches are rated, its rating period is closed.
pub open spec fn event_steps(event: usize, matches: Seq<Matche>) -> Seq<Step> {
    seq![Step::StartEvent { event }] + match_steps(event, matches, matches.len() as int).push(
        Step::FinishEvent { event },
    )
}

/// The year that a replay has reached after the first `upto` events. An event with matches
/// whose id does not name the year reached so far is the first of the next year.
pub open spec fn year_after(
    events: Seq<Event>,
    matches: Seq<Vec<Matche>>,
    upto: int,
    start_year: nat,
) -> nat
    decreases upto,
{
    if upto <= 0 {
        start_year
    } else {
        let year = year_after(events, matches, upto - 1, start_year);
        if matches[upto - 1]@.len() > 0 && !names_year(events[upto - 1].id@, year) {
            year + 1
        } else {
            year
        }
    }
}

/// The steps for the first `upto` events. An event without matches gives no step; before
/// the first event of a new year the ratings are rolled over.
pub open spec fn plan_upto(
    events: Seq<Event>,
    matches: Seq<Vec<Matche>>,
    upto: int,
    start_year: nat,
) -> Seq<Step>
    decreases upto,
{
    if upto <= 0 {
        Seq::empty()
    } else {
        let event = upto - 1;
        let before = plan_upto(events, matches, event, start_year);
        let year = year_after(events, matches, event, start_year);
        if matches[event]@.len() == 0 {
            before
        } else if names_year(events[event].id@, year) {
            before + event_steps(event as usize, matches[event]@)
        } else {
            before.push(Step::NewYear) + event_steps(event as usize, matches[event]@)
        }
    }
}

/// Whether a step names an event, and a match of it, that the lists hold.
pub open spec fn in_range(step: Step, matches: Seq<Vec<Matche>>) -> bool {
    match step {
        Step::NewYear => true,
        Step::StartEvent { event } => event < matches.len(),
        Step::FinishEvent { event } => event < matches.len(),
        Step::Match { event, index } => event < matches.len() && index < matches[event as int]@.len(),
    }
}

proof fn lemma_match_steps_in_range(event: usize, matches: Seq<Vec<Matche>>, upto: int)
    requires
        event < matches.len(),
        0 <= upto <= matches[event as int]@.len(),
    ensures
        forall|k: int|
            0 <= k < match_steps(event, matches[event as int]@, upto).len() ==> in_range(
                #[trigger] match_steps(event, matches[event as int]@, upto)[k],
                matches,
            ),
    decreases upto,
{
    let list = matches[event as int];
    assert(list.len() == list@.len());
    if upto > 0 {
        lemma_match_steps_in_range(event, matches, upto - 1);
        let before = match_steps(event, list@, upto - 1);
        let steps = match_steps(event, list@, upto);
        let last = Step::Match { event, index: (upto - 1) as usize };
        assert(in_range(last, matches));
        assert(in_range(Step::FinishEvent { event }, matches));
        assert forall|k: int| 0 <= k < steps.len() implies in_range(#[trigger] steps[k], matches) by {
            if k < before.len() {
                assert(steps[k] == before[k]);
            }
        }
    }
}

/// Every step of a plan names an event and a match that the lists hold.
pub proof fn lemma_plan_in_range(
    events: Seq<Event>,
    matches: Seq<Vec<Matche>>,
    upto: int,
    start_year: nat,
)
    requires
        0 <= upto <= matches.len(),
        matches.len() <= usize::MAX,
    ensures
        forall|k: int|
            0 <= k < plan_upto(events, matches, upto, start_year).len() ==> in_range(
                #[trigger] plan_upto(events, matches, upto, start_year)[k],
                matches,
            ),
    decreases upto,
{
    if upto > 0 {
        let event = (upto - 1) as usize;
        let list = matches[event as int]@;
        lemma_plan_in_range(events, matches, upto - 1, start_year);
        lemma_match_steps_in_range(event, matches, list.len() as int);
        let before = plan_upto(events, matches, upto - 1, start_year);
        let steps = plan_upto(events, matches, upto, start_year);
        let inner = match_steps(event, list, list.len() as int);
        assert(in_range(Step::StartEvent { event }, matches));
        assert(in_range(Step::FinishEvent { event }, matches));
        assert(in_range(Step::NewYear, matches));
        assert forall|k: int| 0 <= k < steps.len() implies in_range(#[trigger] steps[k], matches) by {
            if list.len() == 0 {
                assert(steps[k] == before[k]);
            } else {
                let opened = if names_year(
                    events[event as int].id@,
                    year_after(events, matches, upto - 1, start_year),
                ) {
                    before
                } else {
                    before.push(Step::NewYear)
                };
                assert(steps == opened + event_steps(event, list));
                if k < before.len() {
                    assert(steps[k] == before[k]);
                } else if k < opened.len() {
                    assert(steps[k] == Step::NewYear);
                } else {
                    let j = k - opened.len();
                    assert(steps[k] == event_steps(event, list)[j]);
                    if j == 0 {
                    } else if j <= inner.len() {
                        assert(event_steps(event, list)[j] == inner[j - 1]);
                    } else {
                    }
                }
            }
        }
    }
}

proof fn lemma_year_after_bound(
    events: Seq<Event>,
    matches: Seq<Vec<Matche>>,
    upto: int,
    start_year: nat,
)
    requires
        0 <= upto,
    ensures
        start_year <= year_after(events, matches, upto, start_year) <= start_year + upto,
    decreases upto,
{
    if upto > 0 {
        lemma_year_after_bound(events, matches, upto - 1, start_year);
    }
}

/// Plans the replay of a list of events, each with its matches, both in replay order,
/// from the year in which the first event lies.
pub fn plan(events: &Vec<Event>, matches: &Vec<Vec<Matche>>, start_year: usize) -> (steps: Vec<
    Step,
>)
    requires
        events@.len() == matches@.len(),
        start_year + events@.len() <= usize::MAX,
    ensures
        steps@ == plan_upto(events@, matches@, events@.len() as int, start_year as nat),
        forall|k: int| 0 <= k < steps@.len() ==> in_range(#[trigger] steps@[k], matches@),
{
    proof {
        lemma_plan_in_range(events@, matches@, events@.len() as int, start_year as nat);
    }
    let mut steps: Vec<Step> = Vec::new();
    let mut year: usize = start_year;
    let mut e: usize = 0;
    while e < events.len()
        invariant
            e <= events.len(),
            events@.len() == matches@.len(),
            start_year + events@.len() <= usize::MAX,
            year == year_after(events@, matches@, e as int, start_year as nat),
            steps@ == plan_upto(events@, matches@, e as int, start_year as nat),
        decreases events.len() - e,
    {
        proof {
            lemma_year_after_bound(events@, matches@, e as int, start_year as nat);
        }
        let list = &matches[e];
        if list.len() > 0 {
            let ghost before = steps@;
            if !in_year(events[e].id.as_str(), year) {
                steps.push(Step::NewYear);
                year = year + 1;
            }
            let ghost opened = steps@;
            steps.push(Step::StartEvent { event: e });
            let mut i: usize = 0;
            while i < list.len()
                invariant
                    i <= list.len(),
                    steps@ == opened.push(Step::StartEvent { event: e }) + match_steps(
                        e,
                        list@,
                        i as int,
                    ),
                decreases list.len() - i,
            {
                let ghost so_far = steps@;
                if is_playoff_opener(list[i].id.as_str()) {
                    steps.push(Step::FinishEvent { event: e });
                }
                steps.push(Step::Match { event: e, index: i });
                assert(steps@ =~= opened.push(Step::StartEvent { event: e }) + match_steps(
                    e,
                    list@,
                    i + 1,
                ));
                i += 1;
            }
            steps.push(Step::FinishEvent { event: e });
            assert(steps@ =~= opened + event_steps(e, list@));
        }
        e += 1;
    }
    steps
}

} // verus!
