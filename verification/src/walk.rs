//! The rule by which one poll of the merged source walks the chain.
//!
//! Everything here is stated over plain values: the weights and completion
//! marks of the segments, the cursor, and the shapes of the answers that the
//! sources give when they are asked. The chain itself only carries these
//! rules out.
//!
//! Each segment owns a window of the lap, as many slots as its weight. The
//! windows follow one another in the order of appending, and the cursor says
//! how far into the lap the chain has come.

use vstd::prelude::*;
use crate::outcome::Kind;
use crate::outcome::Outcome;
use crate::source::fused_answer;
use crate::source::fused_done;

verus! {

/// What the walk knows of one segment: its weight and whether its source has
/// completed.
pub struct Segment {
    pub weight: nat,
    pub done: bool,
}

/// The sum of the weights, which is where the window of a further segment
/// would start.
pub open spec fn total_weight(segments: Seq<Segment>) -> nat
    decreases segments.len(),
{
    if segments.len() == 0 {
        0
    } else {
        total_weight(segments.drop_last()) + segments.last().weight
    }
}

/// The length of a lap: the sum of the weights, or 1 for a chain without
/// segments, so that the cursor always has a modulus.
pub open spec fn cycle_length(segments: Seq<Segment>) -> nat {
    if segments.len() == 0 {
        1
    } else {
        total_weight(segments)
    }
}

/// Every segment has a weight of at least 1.
pub open spec fn weights_positive(segments: Seq<Segment>) -> bool {
    forall|i: int| 0 <= i < segments.len() ==> (#[trigger] segments[i]).weight >= 1
}

/// Every source has completed.
pub open spec fn all_done(segments: Seq<Segment>) -> bool {
    forall|i: int| 0 <= i < segments.len() ==> (#[trigger] segments[i]).done
}

/// The same segments with the same weights, whatever has completed since.
pub open spec fn same_weights(before: Seq<Segment>, after: Seq<Segment>) -> bool {
    &&& before.len() == after.len()
    &&& forall|i: int| 0 <= i < before.len() ==> (#[trigger] after[i]).weight == before[i].weight
}

/// The chain has nothing more to give: every source has completed, and the
/// cursor stands at the start of a lap.
pub open spec fn finished(segments: Seq<Segment>, cursor: nat) -> bool {
    cursor == 0 && all_done(segments)
}

/// What a segment makes of the answer of its own source.
///
/// An item or a failure moves the cursor one slot on and is handed up. On
/// anything else the cursor jumps to the end of the segment's window, and the
/// segment reports `Completed` only if its source has completed and all the
/// segments before it are exhausted as well; otherwise it reports `NotReady`.
pub open spec fn settled(cursor: nat, window_end: nat, lower_exhausted: bool, heard: Kind) -> (
    nat,
    Kind,
) {
    if heard.carries_value() {
        (cursor + 1, heard)
    } else if heard is Completed && lower_exhausted {
        (window_end, Kind::Completed)
    } else {
        (window_end, Kind::NotReady)
    }
}

/// Carries out [`settled`]. An item or a failure is handed on as it came.
pub fn settle<I, E>(
    cursor: u64,
    window_end: u64,
    lower_exhausted: bool,
    heard: Outcome<I, E>,
) -> (next: (u64, Outcome<I, E>))
    requires
        cursor < u64::MAX,
    ensures
        next.0 == settled(cursor as nat, window_end as nat, lower_exhausted, heard.kind()).0,
        next.1.kind() == settled(cursor as nat, window_end as nat, lower_exhausted, heard.kind()).1,
        heard.kind().carries_value() ==> next.1 == heard,
{
    match heard {
        Outcome::Item(item) => (cursor + 1, Outcome::Item(item)),
        Outcome::Failure(error) => (cursor + 1, Outcome::Failure(error)),
        Outcome::Completed => {
            if lower_exhausted {
                (window_end, Outcome::Completed)
            } else {
                (window_end, Outcome::NotReady)
            }
        },
        Outcome::NotReady => (window_end, Outcome::NotReady),
    }
}

/// The result of one walk over the chain.
pub struct Walk {
    /// Where the cursor stands afterwards, before it is reduced to the lap.
    pub cursor: nat,
    /// The shape of what the walk reports.
    pub outcome: Kind,
    /// The segments afterwards: the weights as before, with a completion mark
    /// on each source that has answered `Completed`.
    pub segments: Seq<Segment>,
    /// For each segment, whether its source was asked during the walk.
    pub asked: Seq<bool>,
    /// The segment whose source gave the item or the failure that the walk
    /// reports, if it reports one.
    pub served: Option<int>,
}

/// One walk over the chain, from the segment appended last down to the one
/// whose window holds the cursor, and back up.
///
/// `answers[i]` is the shape of what the source of segment `i` answers if it
/// is asked during this walk. The walk descends while the cursor lies before
/// a segment's window. The segment where it stops counts everything before
/// it as exhausted only if the cursor is 0. On the way back up each segment
/// is polled in turn, through its adapter, until one gives an item or a
/// failure, which ends the walk and is what the walk reports.
pub open spec fn walk(segments: Seq<Segment>, cursor: nat, answers: Seq<Kind>) -> Walk
    decreases segments.len(),
{
    if segments.len() == 0 {
        Walk {
            cursor: 0,
            outcome: Kind::Completed,
            segments,
            asked: Seq::empty(),
            served: None,
        }
    } else {
        let head = segments.last();
        let rest = segments.drop_last();
        let start = total_weight(rest);
        let below = if cursor < start {
            walk(rest, cursor, answers.drop_last())
        } else {
            stop_above(rest, cursor)
        };
        if below.outcome.carries_value() {
            Walk {
                cursor: below.cursor,
                outcome: below.outcome,
                segments: below.segments.push(head),
                asked: below.asked.push(false),
                served: below.served,
            }
        } else {
            let heard = fused_answer(head.done, answers.last());
            let next = settled(
                below.cursor,
                start + head.weight,
                below.outcome is Completed,
                heard,
            );
            Walk {
                cursor: next.0,
                outcome: next.1,
                segments: below.segments.push(
                    Segment { weight: head.weight, done: fused_done(head.done, heard) },
                ),
                asked: below.asked.push(!head.done),
                served: if heard.carries_value() {
                    Some(segments.len() - 1)
                } else {
                    None
                },
            }
        }
    }
}

/// What the segment at which the descent stops takes for the result of the
/// segments before it: they are left untouched, and they count as exhausted
/// exactly if the cursor is 0.
pub open spec fn stop_above(rest: Seq<Segment>, cursor: nat) -> Walk {
    Walk {
        cursor,
        outcome: if cursor == 0 {
            Kind::Completed
        } else {
            Kind::NotReady
        },
        segments: rest,
        asked: Seq::new(rest.len(), |i: int| false),
        served: None,
    }
}

/// A walk from `cursor` over `before`, with these answers, ends with the
/// cursor at `reached`, reports `outcome` and leaves the segments as `after`.
pub open spec fn walk_gives(
    before: Seq<Segment>,
    cursor: nat,
    answers: Seq<Kind>,
    reached: nat,
    outcome: Kind,
    after: Seq<Segment>,
) -> bool {
    let w = walk(before, cursor, answers);
    &&& answers.len() == before.len()
    &&& w.cursor == reached
    &&& w.outcome == outcome
    &&& w.segments == after
}

/// Whether a walk that began at `cursor` and reported `outcome` is followed
/// at once by a second walk from the start of the lap: it is, if it gave no
/// value and did not itself begin there.
pub open spec fn restarts(cursor: nat, outcome: Kind) -> bool {
    cursor > 0 && !outcome.carries_value()
}

/// Carries out [`restarts`].
pub fn needs_restart<I, E>(cursor: u64, outcome: &Outcome<I, E>) -> (again: bool)
    ensures
        again == restarts(cursor as nat, outcome.kind()),
{
    cursor > 0 && !outcome.is_value()
}

/// One poll of the merged source.
///
/// The chain is walked from the cursor. If that walk gives no value and did
/// not begin at the start of a lap, the chain is walked again from cursor 0,
/// with `second` as the answers of the sources. The cursor is then reduced to
/// the lap.
pub open spec fn poll_once(
    segments: Seq<Segment>,
    cursor: nat,
    first: Seq<Kind>,
    second: Seq<Kind>,
) -> Walk {
    let one = walk(segments, cursor, first);
    let last = if restarts(cursor, one.outcome) {
        walk(one.segments, 0, second)
    } else {
        one
    };
    Walk {
        cursor: last.cursor % cycle_length(segments),
        outcome: last.outcome,
        segments: last.segments,
        asked: last.asked,
        served: last.served,
    }
}

/// A poll from `cursor` over `before`, with these answers in its first and
/// its second walk, leaves the cursor at `cursor_after`, reports `outcome`
/// and leaves the segments as `after`.
pub open spec fn poll_gives(
    before: Seq<Segment>,
    cursor: nat,
    first: Seq<Kind>,
    second: Seq<Kind>,
    cursor_after: nat,
    outcome: Kind,
    after: Seq<Segment>,
) -> bool {
    let p = poll_once(before, cursor, first, second);
    &&& first.len() == before.len()
    &&& second.len() == before.len()
    &&& p.cursor == cursor_after
    &&& p.outcome == outcome
    &&& p.segments == after
}

/// Appending a segment adds its weight to the total.
pub proof fn lemma_total_weight_push(segments: Seq<Segment>, head: Segment)
    ensures
        total_weight(segments.push(head)) == total_weight(segments) + head.weight,
{
    assert(segments.push(head).drop_last() =~= segments);
}

/// Segments with the same weights weigh the same together.
pub proof fn lemma_same_weights_total(before: Seq<Segment>, after: Seq<Segment>)
    requires
        same_weights(before, after),
    ensures
        total_weight(before) == total_weight(after),
        cycle_length(before) == cycle_length(after),
    decreases before.len(),
{
    if before.len() > 0 {
        lemma_same_weights_total(before.drop_last(), after.drop_last());
    }
}

/// What holds of every walk that begins inside the lap, whatever the sources
/// answer.
///
/// The weights stay, and a completion mark, once set, stays. A walk that
/// gives no value leaves the cursor at the end of the lap; one that gives a
/// value moves it forward within the lap. `Completed` is reported only by a
/// walk from cursor 0 that leaves every source completed.
pub proof fn lemma_walk_shape(segments: Seq<Segment>, cursor: nat, answers: Seq<Kind>)
    requires
        weights_positive(segments),
        cursor < cycle_length(segments),
        answers.len() == segments.len(),
    ensures
        ({
            let w = walk(segments, cursor, answers);
            &&& same_weights(segments, w.segments)
            &&& weights_positive(w.segments)
            &&& forall|i: int|
                0 <= i < segments.len() && segments[i].done ==> (#[trigger] w.segments[i]).done
            &&& !w.outcome.carries_value() ==> w.cursor == total_weight(segments)
            &&& w.outcome.carries_value() ==> cursor < w.cursor <= total_weight(segments)
            &&& w.outcome is Completed ==> cursor == 0 && all_done(w.segments)
        }),
    decreases segments.len(),
{
    if segments.len() > 0 {
        let rest = segments.drop_last();
        if cursor < total_weight(rest) {
            lemma_walk_shape(rest, cursor, answers.drop_last());
        }
    }
}

/// No walk loses a value, and no walk asks a source that has completed.
///
/// A walk asks each source at most once. If a source that is asked gives an
/// item or a failure, the walk ends there and reports just that: the source
/// is the one served, and no other source that was asked gave a value. A
/// walk that reports no value was given none.
pub proof fn lemma_walk_hands_on(segments: Seq<Segment>, cursor: nat, answers: Seq<Kind>)
    requires
        answers.len() == segments.len(),
    ensures
        ({
            let w = walk(segments, cursor, answers);
            &&& w.asked.len() == segments.len()
            &&& w.segments.len() == segments.len()
            &&& forall|i: int|
                0 <= i < segments.len() && #[trigger] w.asked[i] ==> !segments[i].done
            &&& forall|i: int|
                0 <= i < segments.len() && #[trigger] w.asked[i] && answers[i].carries_value()
                    ==> w.served == Some(i)
            &&& w.outcome.carries_value() <==> w.served is Some
            &&& w.served matches Some(j) ==> {
                &&& 0 <= j < segments.len()
                &&& w.asked[j]
                &&& answers[j] == w.outcome
            }
        }),
    decreases segments.len(),
{
    if segments.len() > 0 {
        let rest = segments.drop_last();
        if cursor < total_weight(rest) {
            lemma_walk_hands_on(rest, cursor, answers.drop_last());
        }
    }
}

/// A walk from the start of the lap over sources that have all completed asks
/// nobody, changes nothing and reports `Completed` at the end of the lap.
pub proof fn lemma_walk_all_done(segments: Seq<Segment>, answers: Seq<Kind>)
    requires
        weights_positive(segments),
        all_done(segments),
    ensures
        walk(segments, 0, answers) == (Walk {
            cursor: total_weight(segments),
            outcome: Kind::Completed,
            segments,
            asked: Seq::new(segments.len(), |i: int| false),
            served: None,
        }),
    decreases segments.len(),
{
    let w = walk(segments, 0, answers);
    if segments.len() > 0 {
        let rest = segments.drop_last();
        if rest.len() > 0 {
            lemma_walk_all_done(rest, answers.drop_last());
            assert(rest.last().weight >= 1);
        }
        assert(w.segments =~= segments);
    }
    assert(w.asked =~= Seq::new(segments.len(), |i: int| false));
}

/// What holds of every poll that begins inside the lap, whatever the sources
/// answer.
///
/// The weights stay, a completion mark stays, and the cursor stays inside the
/// lap. A poll of a finished chain reports `Completed` and changes nothing.
/// A poll that reports `Completed` leaves the chain finished.
pub proof fn lemma_poll_shape(
    segments: Seq<Segment>,
    cursor: nat,
    first: Seq<Kind>,
    second: Seq<Kind>,
)
    requires
        weights_positive(segments),
        cursor < cycle_length(segments),
        first.len() == segments.len(),
        second.len() == segments.len(),
    ensures
        ({
            let p = poll_once(segments, cursor, first, second);
            &&& same_weights(segments, p.segments)
            &&& weights_positive(p.segments)
            &&& forall|i: int|
                0 <= i < segments.len() && segments[i].done ==> (#[trigger] p.segments[i]).done
            &&& p.cursor < cycle_length(segments)
            &&& finished(segments, cursor) ==> {
                &&& p.outcome is Completed
                &&& p.segments == segments
                &&& p.cursor == 0
            }
            &&& p.outcome is Completed ==> finished(p.segments, p.cursor)
        }),
{
    let one = walk(segments, cursor, first);
    let p = poll_once(segments, cursor, first, second);
    let cycle = cycle_length(segments);
    let total = total_weight(segments);
    lemma_walk_shape(segments, cursor, first);
    lemma_same_weights_total(segments, one.segments);
    if restarts(cursor, one.outcome) {
        lemma_walk_shape(one.segments, 0, second);
    }
    if finished(segments, cursor) {
        lemma_walk_all_done(segments, first);
    }
    if !p.outcome.carries_value() {
        assert(total % cycle == 0) by (nonlinear_arith)
            requires
                cycle > 0,
                total == cycle || total == 0,
        ;
    }
    assert(p.cursor < cycle) by (nonlinear_arith)
        requires
            p.cursor == (if restarts(cursor, one.outcome) {
                walk(one.segments, 0, second)
            } else {
                one
            }).cursor % cycle,
            cycle > 0,
    ;
}

/// Once a poll has reported `Completed`, every later poll reports
/// `Completed` too, whatever the sources would answer, and leaves the chain
/// as it is.
pub proof fn lemma_completed_is_final(
    segments: Seq<Segment>,
    cursor: nat,
    first: Seq<Kind>,
    second: Seq<Kind>,
)
    requires
        weights_positive(segments),
        cursor < cycle_length(segments),
        first.len() == segments.len(),
        second.len() == segments.len(),
        poll_once(segments, cursor, first, second).outcome is Completed,
    ensures
        ({
            let p = poll_once(segments, cursor, first, second);
            forall|later: Seq<Kind>, restart: Seq<Kind>|
                later.len() == segments.len() && restart.len() == segments.len() ==> {
                    let q = #[trigger] poll_once(p.segments, p.cursor, later, restart);
                    &&& q.outcome is Completed
                    &&& q.segments == p.segments
                    &&& q.cursor == p.cursor
                }
        }),
{
    let p = poll_once(segments, cursor, first, second);
    lemma_poll_shape(segments, cursor, first, second);
    lemma_same_weights_total(segments, p.segments);
    assert forall|later: Seq<Kind>, restart: Seq<Kind>|
        later.len() == segments.len() && restart.len() == segments.len() implies {
        let q = #[trigger] poll_once(p.segments, p.cursor, later, restart);
        &&& q.outcome is Completed
        &&& q.segments == p.segments
        &&& q.cursor == p.cursor
    } by {
        lemma_poll_shape(p.segments, p.cursor, later, restart);
    }
}

/// A chain without segments has a lap of length 1, and every poll of it
/// reports `Completed`.
pub proof fn lemma_empty_chain_is_completed(
    segments: Seq<Segment>,
    first: Seq<Kind>,
    second: Seq<Kind>,
)
    requires
        segments.len() == 0,
    ensures
        cycle_length(segments) == 1,
        finished(segments, 0),
        poll_once(segments, 0, first, second).outcome is Completed,
        poll_once(segments, 0, first, second).cursor == 0,
        poll_once(segments, 0, first, second).segments == segments,
{
}

} // verus!
