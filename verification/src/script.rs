//! The merged source over sources whose answers are written down in advance.
//!
//! A script is the list of answers that a source gives, poll after poll;
//! when the list is used up the source answers `Completed`. With a script for
//! each source, what a chain hands out is a matter of calculation, and laws
//! about whole runs can be stated and proved.

use vstd::prelude::*;
use crate::outcome::Kind;
use crate::outcome::Outcome;
use crate::walk::lemma_walk_hands_on;
use crate::walk::poll_once;
use crate::walk::restarts;
use crate::walk::walk;
use crate::walk::Segment;

verus! {

/// What a source with this script answers when it is asked next.
pub open spec fn next_answer<I, E>(script: Seq<Outcome<I, E>>) -> Outcome<I, E> {
    if script.len() > 0 {
        script[0]
    } else {
        Outcome::Completed
    }
}

/// The shapes of the answers that the sources give when they are asked next.
pub open spec fn feed<I, E>(scripts: Seq<Seq<Outcome<I, E>>>) -> Seq<Kind> {
    Seq::new(scripts.len(), |i: int| next_answer(scripts[i]).kind())
}

/// The scripts after a walk: each source that was asked has given its next
/// answer.
pub open spec fn advance<I, E>(scripts: Seq<Seq<Outcome<I, E>>>, asked: Seq<bool>) -> Seq<
    Seq<Outcome<I, E>>,
> {
    Seq::new(
        scripts.len(),
        |i: int|
            if 0 <= i < asked.len() && asked[i] && scripts[i].len() > 0 {
                scripts[i].skip(1)
            } else {
                scripts[i]
            },
    )
}

/// A chain, its cursor and the scripts of its sources after one poll, with
/// what the poll handed out.
pub struct Step<I, E> {
    pub segments: Seq<Segment>,
    pub cursor: nat,
    pub scripts: Seq<Seq<Outcome<I, E>>>,
    /// The source that gave the value handed out, if one was.
    pub source: Option<int>,
    /// What the poll reports. An item or a failure is the answer of `source`.
    pub outcome: Outcome<I, E>,
}

/// One poll of a chain whose sources follow their scripts.
///
/// The first walk hears the next answer of each source it asks. If the poll
/// walks a second time, the sources asked in the first walk have moved on by
/// one answer.
pub open spec fn step<I, E>(
    segments: Seq<Segment>,
    cursor: nat,
    scripts: Seq<Seq<Outcome<I, E>>>,
) -> Step<I, E> {
    let one = walk(segments, cursor, feed(scripts));
    let between = advance(scripts, one.asked);
    let heard = if restarts(cursor, one.outcome) {
        between
    } else {
        scripts
    };
    let p = poll_once(segments, cursor, feed(scripts), feed(between));
    Step {
        segments: p.segments,
        cursor: p.cursor,
        scripts: advance(heard, p.asked),
        source: p.served,
        outcome: match p.served {
            Some(j) => next_answer(heard[j]),
            None => if p.outcome is Completed {
                Outcome::Completed
            } else {
                Outcome::NotReady
            },
        },
    }
}

/// The items and failures that a number of polls hand out, in order.
pub open spec fn run<I, E>(
    segments: Seq<Segment>,
    cursor: nat,
    scripts: Seq<Seq<Outcome<I, E>>>,
    polls: nat,
) -> Seq<Outcome<I, E>>
    decreases polls,
{
    if polls == 0 {
        Seq::empty()
    } else {
        let s = step(segments, cursor, scripts);
        let later = run(s.segments, s.cursor, s.scripts, (polls - 1) as nat);
        if s.source is Some {
            seq![s.outcome] + later
        } else {
            later
        }
    }
}

/// The items and failures among these that came from one source.
pub open spec fn run_from<I, E>(
    segments: Seq<Segment>,
    cursor: nat,
    scripts: Seq<Seq<Outcome<I, E>>>,
    polls: nat,
    source: int,
) -> Seq<Outcome<I, E>>
    decreases polls,
{
    if polls == 0 {
        Seq::empty()
    } else {
        let s = step(segments, cursor, scripts);
        let later = run_from(s.segments, s.cursor, s.scripts, (polls - 1) as nat, source);
        if s.source == Some(source) {
            seq![s.outcome] + later
        } else {
            later
        }
    }
}

/// What is left of the scripts after a number of polls.
pub open spec fn scripts_after<I, E>(
    segments: Seq<Segment>,
    cursor: nat,
    scripts: Seq<Seq<Outcome<I, E>>>,
    polls: nat,
) -> Seq<Seq<Outcome<I, E>>>
    decreases polls,
{
    if polls == 0 {
        scripts
    } else {
        let s = step(segments, cursor, scripts);
        scripts_after(s.segments, s.cursor, s.scripts, (polls - 1) as nat)
    }
}

/// The items and failures among a list of answers, in order.
pub open spec fn values<I, E>(answers: Seq<Outcome<I, E>>) -> Seq<Outcome<I, E>>
    decreases answers.len(),
{
    if answers.len() == 0 {
        Seq::empty()
    } else if answers.last().kind().carries_value() {
        values(answers.drop_last()).push(answers.last())
    } else {
        values(answers.drop_last())
    }
}

/// The values among two lists of answers, one after the other, are the
/// values of the first and then those of the second.
proof fn lemma_values_add<I, E>(a: Seq<Outcome<I, E>>, b: Seq<Outcome<I, E>>)
    ensures
        values(a + b) =~= values(a) + values(b),
    decreases b.len(),
{
    if b.len() == 0 {
        assert(a + b =~= a);
    } else {
        assert((a + b).drop_last() =~= a + b.drop_last());
        lemma_values_add(a, b.drop_last());
    }
}

/// The answers that a source has given between two states of its script.
pub open spec fn given<I, E>(before: Seq<Outcome<I, E>>, after: Seq<Outcome<I, E>>) -> Seq<
    Outcome<I, E>,
> {
    before.take(before.len() - after.len())
}

/// `after` is `before` without some of its first answers.
pub open spec fn is_rest_of<I, E>(after: Seq<Outcome<I, E>>, before: Seq<Outcome<I, E>>) -> bool {
    after.len() <= before.len() && after == before.skip(before.len() - after.len())
}

/// What one walk does to one source: it asks it at most once, and if the
/// source is the one served, its answer was a value.
proof fn lemma_walk_asks_once<I, E>(
    segments: Seq<Segment>,
    cursor: nat,
    scripts: Seq<Seq<Outcome<I, E>>>,
    j: int,
)
    requires
        segments.len() == scripts.len(),
        0 <= j < scripts.len(),
    ensures
        ({
            let w = walk(segments, cursor, feed(scripts));
            let left = advance(scripts, w.asked)[j];
            &&& is_rest_of(left, scripts[j])
            &&& values(given(scripts[j], left)) =~= if w.served == Some(j) {
                seq![next_answer(scripts[j])]
            } else {
                Seq::empty()
            }
        }),
{
    let w = walk(segments, cursor, feed(scripts));
    let left = advance(scripts, w.asked)[j];
    lemma_walk_hands_on(segments, cursor, feed(scripts));
    if w.asked[j] && scripts[j].len() > 0 {
        let told = scripts[j].take(1);
        assert(told.drop_last() =~= Seq::<Outcome<I, E>>::empty());
        assert(values(told.drop_last()) =~= Seq::<Outcome<I, E>>::empty());
        assert(told.last() == scripts[j][0]);
    } else {
        assert(left =~= scripts[j].skip(0));
        assert(scripts[j].take(0) =~= Seq::<Outcome<I, E>>::empty());
    }
}

/// What one poll does to one source: what the source has told since, taken
/// for its items and failures, is what the poll handed out from it.
proof fn lemma_step_hands_on<I, E>(
    segments: Seq<Segment>,
    cursor: nat,
    scripts: Seq<Seq<Outcome<I, E>>>,
    j: int,
)
    requires
        segments.len() == scripts.len(),
        0 <= j < scripts.len(),
    ensures
        ({
            let s = step(segments, cursor, scripts);
            &&& s.segments.len() == segments.len()
            &&& s.scripts.len() == scripts.len()
            &&& is_rest_of(s.scripts[j], scripts[j])
            &&& values(given(scripts[j], s.scripts[j])) =~= if s.source == Some(j) {
                seq![s.outcome]
            } else {
                Seq::empty()
            }
        }),
{
    let one = walk(segments, cursor, feed(scripts));
    let between = advance(scripts, one.asked);
    lemma_walk_asks_once(segments, cursor, scripts, j);
    lemma_walk_hands_on(segments, cursor, feed(scripts));
    if restarts(cursor, one.outcome) {
        let two = walk(one.segments, 0, feed(between));
        let left = advance(between, two.asked);
        lemma_walk_asks_once(one.segments, 0, between, j);
        lemma_walk_hands_on(one.segments, 0, feed(between));
        let first = given(scripts[j], between[j]);
        let second = given(between[j], left[j]);
        assert(given(scripts[j], left[j]) =~= first + second);
        lemma_values_add(first, second);
        assert(left[j] =~= scripts[j].skip(scripts[j].len() - left[j].len()));
    }
}

/// Each source's values come out in the source's own order, none lost and
/// none twice, whenever the sources are ready and whatever they answer.
///
/// Over any number of polls, the items and failures that the merged source
/// hands out from source `j` are, in order, exactly the items and failures
/// among the answers that source `j` has given in that time.
pub proof fn lemma_source_order_is_kept<I, E>(
    segments: Seq<Segment>,
    cursor: nat,
    scripts: Seq<Seq<Outcome<I, E>>>,
    polls: nat,
    j: int,
)
    requires
        segments.len() == scripts.len(),
        0 <= j < scripts.len(),
    ensures
        ({
            let left = scripts_after(segments, cursor, scripts, polls);
            &&& left.len() == scripts.len()
            &&& is_rest_of(left[j], scripts[j])
            &&& run_from(segments, cursor, scripts, polls, j) == values(
                given(scripts[j], left[j]),
            )
        }),
    decreases polls,
{
    if polls == 0 {
        assert(scripts[j] =~= scripts[j].skip(0));
        assert(scripts[j].take(0) =~= Seq::<Outcome<I, E>>::empty());
    } else {
        let s = step(segments, cursor, scripts);
        let left = scripts_after(segments, cursor, scripts, polls);
        lemma_step_hands_on(segments, cursor, scripts, j);
        lemma_source_order_is_kept(s.segments, s.cursor, s.scripts, (polls - 1) as nat, j);
        let first = given(scripts[j], s.scripts[j]);
        let second = given(s.scripts[j], left[j]);
        assert(given(scripts[j], left[j]) =~= first + second);
        lemma_values_add(first, second);
        assert(left[j] =~= scripts[j].skip(scripts[j].len() - left[j].len()));
        assert(run_from(segments, cursor, scripts, polls, j) =~= values(first) + values(second));
    }
}

/// A chain of one source hands out that source's items and failures, all of
/// them and in order, whatever the weight and whenever the source is ready.
pub proof fn lemma_single_source_is_reproduced<I, E>(
    segments: Seq<Segment>,
    cursor: nat,
    scripts: Seq<Seq<Outcome<I, E>>>,
    polls: nat,
)
    requires
        segments.len() == 1,
        scripts.len() == 1,
    ensures
        ({
            let left = scripts_after(segments, cursor, scripts, polls);
            &&& is_rest_of(left[0], scripts[0])
            &&& run(segments, cursor, scripts, polls) == values(given(scripts[0], left[0]))
        }),
{
    lemma_source_order_is_kept(segments, cursor, scripts, polls, 0);
    lemma_single_source_gives_all(segments, cursor, scripts, polls);
}

/// With one source in the chain, whatever is handed out comes from it.
proof fn lemma_single_source_gives_all<I, E>(
    segments: Seq<Segment>,
    cursor: nat,
    scripts: Seq<Seq<Outcome<I, E>>>,
    polls: nat,
)
    requires
        segments.len() == 1,
        scripts.len() == 1,
    ensures
        run(segments, cursor, scripts, polls) == run_from(segments, cursor, scripts, polls, 0),
    decreases polls,
{
    if polls > 0 {
        let s = step(segments, cursor, scripts);
        let one = walk(segments, cursor, feed(scripts));
        lemma_step_hands_on(segments, cursor, scripts, 0);
        lemma_walk_hands_on(segments, cursor, feed(scripts));
        if restarts(cursor, one.outcome) {
            let between = advance(scripts, one.asked);
            lemma_walk_hands_on(one.segments, 0, feed(between));
        }
        lemma_single_source_gives_all(s.segments, s.cursor, s.scripts, (polls - 1) as nat);
    }
}

} // verus!
