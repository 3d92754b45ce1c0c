//! Sources that are always ready: the chain hands out their items in
//! weighted round robin.
//!
//! A source is always ready if it gives an item whenever it is asked, until
//! it has none left and completes. For such sources the walk over the chain
//! comes down to this: the source whose window holds the cursor serves as
//! long as its window lasts and it has items; then the next one that has any.

use vstd::prelude::*;
use crate::outcome::Outcome;
use crate::round_robin::after_lap;
use crate::round_robin::after_turn;
use crate::round_robin::first_of;
use crate::round_robin::lap;
use crate::round_robin::lemma_lap_takes;
use crate::round_robin::lemma_round_robin_len;
use crate::round_robin::pending;
use crate::round_robin::positive;
use crate::round_robin::round_robin;
use crate::round_robin::total;
use crate::round_robin::turn;
use crate::script::advance;
use crate::script::feed;
use crate::script::run;
use crate::script::step;
use crate::walk::cycle_length;
use crate::walk::lemma_same_weights_total;
use crate::walk::lemma_walk_hands_on;
use crate::walk::lemma_walk_shape;
use crate::walk::same_weights;
use crate::walk::total_weight;
use crate::walk::walk;
use crate::walk::weights_positive;
use crate::walk::Segment;

verus! {

/// A queue of items as the script of a source that is always ready: one item
/// at every poll.
pub open spec fn items<I, E>(queue: Seq<I>) -> Seq<Outcome<I, E>> {
    Seq::new(queue.len(), |k: int| Outcome::Item(queue[k]))
}

/// The scripts of sources that are always ready and hold these queues.
pub open spec fn always_ready<I, E>(queues: Seq<Seq<I>>) -> Seq<Seq<Outcome<I, E>>> {
    Seq::new(queues.len(), |i: int| items(queues[i]))
}

/// The weights of the segments, in their order.
spec fn weights_of(segments: Seq<Segment>) -> Seq<nat> {
    Seq::new(segments.len(), |i: int| segments[i].weight)
}

/// Segments with these weights whose sources have not completed.
pub open spec fn fresh(weights: Seq<nat>) -> Seq<Segment> {
    Seq::new(weights.len(), |i: int| Segment { weight: weights[i], done: false })
}

/// Every answer in every script is an item: the sources are always ready
/// until they have nothing left.
spec fn all_items<I, E>(scripts: Seq<Seq<Outcome<I, E>>>) -> bool {
    forall|i: int, k: int|
        0 <= i < scripts.len() && 0 <= k < scripts[i].len() ==> #[trigger] scripts[i][k] is Item
}

/// Where the window of segment `i` starts.
spec fn start(weights: Seq<nat>, i: int) -> nat {
    total(weights.take(i))
}

/// How many items a source may still give in this lap: the slots of its
/// window from the cursor on, or what it has left if that is less.
spec fn allowance(from: nat, weight: nat, cursor: nat, len: nat) -> nat {
    let slots = if cursor >= from + weight {
        0
    } else if cursor <= from {
        weight
    } else {
        (from + weight - cursor) as nat
    };
    if slots <= len {
        slots
    } else {
        len
    }
}

/// What the rest of a lap hands out when the cursor stands at `cursor`.
spec fn lap_from<T>(weights: Seq<nat>, queues: Seq<Seq<T>>, cursor: nat) -> Seq<T>
    decreases queues.len(),
{
    if queues.len() == 0 || weights.len() != queues.len() {
        Seq::empty()
    } else {
        lap_from(weights.drop_last(), queues.drop_last(), cursor) + queues.last().take(
            allowance(total(weights.drop_last()), weights.last(), cursor, queues.last().len())
                as int,
        )
    }
}

/// What is left of the queues after the rest of a lap.
spec fn after_from<T>(weights: Seq<nat>, queues: Seq<Seq<T>>, cursor: nat) -> Seq<Seq<T>> {
    Seq::new(
        queues.len(),
        |i: int|
            queues[i].skip(
                allowance(start(weights, i), weights[i], cursor, queues[i].len()) as int,
            ),
    )
}

/// No queue that is still due in this lap holds anything.
spec fn idle_from<T>(weights: Seq<nat>, queues: Seq<Seq<T>>, cursor: nat, below: int) -> bool {
    forall|i: int|
        0 <= i < below && cursor < start(weights, i) + weights[i] ==> (#[trigger] queues[i]).len()
            == 0
}

/// The weights of the segments add up to the total weight of the chain.
proof fn lemma_total_of_weights(segments: Seq<Segment>)
    ensures
        total(weights_of(segments)) == total_weight(segments),
    decreases segments.len(),
{
    if segments.len() > 0 {
        lemma_total_of_weights(segments.drop_last());
        assert(weights_of(segments).drop_last() =~= weights_of(segments.drop_last()));
    }
}

/// The windows follow one another: a window ends where the next one starts,
/// and before every later one.
proof fn lemma_windows_in_order(weights: Seq<nat>, i: int, k: int)
    requires
        0 <= i < k <= weights.len(),
    ensures
        start(weights, i) + weights[i] <= start(weights, k),
        start(weights, weights.len() as int) == total(weights),
    decreases k - i,
{
    assert(weights.take(weights.len() as int) =~= weights);
    assert(weights.take(k).drop_last() =~= weights.take(k - 1));
    if i < k - 1 {
        lemma_windows_in_order(weights, i, k - 1);
    }
}

/// Without the last segment the windows of the others are where they were,
/// and the last window starts where they end.
proof fn lemma_front_windows(weights: Seq<nat>)
    requires
        weights.len() > 0,
    ensures
        start(weights, weights.len() - 1) == total(weights.drop_last()),
        forall|i: int|
            0 <= i < weights.len() - 1 ==> #[trigger] start(weights.drop_last(), i) == start(
                weights,
                i,
            ),
{
    let front = weights.drop_last();
    assert(weights.take(weights.len() - 1) =~= front);
    assert forall|i: int| 0 <= i < weights.len() - 1 implies #[trigger] start(front, i) == start(
        weights,
        i,
    ) by {
        assert(front.take(i) =~= weights.take(i));
    }
}

/// What is idle among all segments is idle among all but the last.
proof fn lemma_front_idle<T>(weights: Seq<nat>, queues: Seq<Seq<T>>, cursor: nat, below: int)
    requires
        weights.len() == queues.len(),
        0 <= below < queues.len(),
        idle_from(weights, queues, cursor, below),
    ensures
        idle_from(weights.drop_last(), queues.drop_last(), cursor, below),
{
    lemma_front_windows(weights);
    assert forall|i: int|
        0 <= i < below && cursor < start(weights.drop_last(), i)
            + weights.drop_last()[i] implies (#[trigger] queues.drop_last()[i]).len() == 0 by {
        assert(queues[i].len() == 0);
    }
}

/// The rest of a lap hands out nothing, and leaves the queues as they are,
/// when no queue that is still due holds anything.
proof fn lemma_lap_from_idle<T>(weights: Seq<nat>, queues: Seq<Seq<T>>, cursor: nat)
    requires
        weights.len() == queues.len(),
        idle_from(weights, queues, cursor, queues.len() as int),
    ensures
        lap_from(weights, queues, cursor) =~= Seq::<T>::empty(),
        after_from(weights, queues, cursor) =~= queues,
    decreases queues.len(),
{
    let n = queues.len() as int;
    if n > 0 {
        lemma_front_windows(weights);
        lemma_front_idle(weights, queues, cursor, n - 1);
        lemma_lap_from_idle(weights.drop_last(), queues.drop_last(), cursor);
        assert(queues[n - 1].len() == 0 || cursor >= start(weights, n - 1) + weights[n - 1]);
    }
    assert forall|i: int| 0 <= i < n implies #[trigger] after_from(weights, queues, cursor)[i]
        =~= queues[i] by {
        assert(queues[i].len() == 0 || cursor >= start(weights, i) + weights[i]);
    }
}

/// The slot from which source `j` serves when the cursor stands at `cursor`:
/// the cursor itself inside the window of `j`, the start of the window
/// before it.
spec fn serving_slot(weights: Seq<nat>, cursor: nat, j: int) -> nat {
    if cursor <= start(weights, j) {
        start(weights, j)
    } else {
        cursor
    }
}

/// The queues after source `j` has given its first item.
spec fn served<T>(queues: Seq<Seq<T>>, j: int) -> Seq<Seq<T>> {
    queues.update(j, queues[j].skip(1))
}

/// Source `j` is the one to serve when the cursor stands at `cursor`: it has
/// an item, its window is not over, and no source before it that is still
/// due has anything.
spec fn serves<T>(weights: Seq<nat>, queues: Seq<Seq<T>>, cursor: nat, j: int) -> bool {
    &&& weights.len() == queues.len()
    &&& positive(weights)
    &&& 0 <= j < queues.len()
    &&& queues[j].len() > 0
    &&& cursor < start(weights, j) + weights[j]
    &&& idle_from(weights, queues, cursor, j)
}

/// When source `j` serves, the rest of the lap is its first item and then
/// the rest of the lap from the next slot.
proof fn lemma_lap_from_serves<T>(weights: Seq<nat>, queues: Seq<Seq<T>>, cursor: nat, j: int)
    requires
        serves(weights, queues, cursor, j),
    ensures
        lap_from(weights, queues, cursor) =~= seq![queues[j][0]] + lap_from(
            weights,
            served(queues, j),
            serving_slot(weights, cursor, j) + 1,
        ),
    decreases queues.len(),
{
    let n = queues.len() as int;
    let next = serving_slot(weights, cursor, j) + 1;
    let front = weights.drop_last();
    lemma_front_windows(weights);
    lemma_front_idle(weights, queues, cursor, j);
    assert(served(queues, j).drop_last() =~= if j < n - 1 {
        served(queues.drop_last(), j)
    } else {
        queues.drop_last()
    });
    if j < n - 1 {
        lemma_lap_from_serves(front, queues.drop_last(), cursor, j);
        lemma_windows_in_order(weights, j, n - 1);
    } else {
        lemma_lap_from_idle(front, queues.drop_last(), cursor);
        assert(idle_from(front, queues.drop_last(), next, n - 1)) by {
            assert forall|i: int|
                0 <= i < n - 1 && next < start(front, i) + front[i] implies (
            #[trigger] queues.drop_last()[i]).len() == 0 by {
                lemma_windows_in_order(weights, i, n - 1);
            }
        }
        lemma_lap_from_idle(front, queues.drop_last(), next);
    }
}

/// When source `j` serves, what is left after the rest of the lap is the
/// same whether it is reckoned before or after the item is given.
proof fn lemma_after_from_serves<T>(weights: Seq<nat>, queues: Seq<Seq<T>>, cursor: nat, j: int)
    requires
        serves(weights, queues, cursor, j),
    ensures
        after_from(weights, queues, cursor) =~= after_from(
            weights,
            served(queues, j),
            serving_slot(weights, cursor, j) + 1,
        ),
{
    let n = queues.len() as int;
    let next = serving_slot(weights, cursor, j) + 1;
    assert forall|i: int| 0 <= i < n implies #[trigger] after_from(weights, queues, cursor)[i]
        =~= after_from(weights, served(queues, j), next)[i] by {
        if i < j {
            lemma_windows_in_order(weights, i, j);
            assert(queues[i].len() == 0 || cursor >= start(weights, i) + weights[i]);
        } else if i > j {
            lemma_windows_in_order(weights, j, i);
        }
    }
}

/// Nothing is pending exactly if every queue is empty.
proof fn lemma_pending_zero<T>(queues: Seq<Seq<T>>)
    ensures
        pending(queues) == 0 <==> forall|i: int|
            0 <= i < queues.len() ==> (#[trigger] queues[i]).len() == 0,
    decreases queues.len(),
{
    if queues.len() > 0 {
        lemma_pending_zero(queues.drop_last());
        if pending(queues) == 0 {
            assert forall|i: int| 0 <= i < queues.len() implies (#[trigger] queues[i]).len()
                == 0 by {
                if i < queues.len() - 1 {
                    assert(queues.drop_last()[i].len() == 0);
                }
            }
        } else if forall|i: int| 0 <= i < queues.len() ==> (#[trigger] queues[i]).len() == 0 {
            assert forall|i: int| 0 <= i < queues.len() - 1 implies (
            #[trigger] queues.drop_last()[i]).len() == 0 by {
                assert(queues[i].len() == 0);
            }
        }
    }
}

/// A lap from the start of the lap is a whole lap.
proof fn lemma_lap_from_start<T>(weights: Seq<nat>, queues: Seq<Seq<T>>)
    requires
        weights.len() == queues.len(),
        positive(weights),
    ensures
        lap_from(weights, queues, 0) =~= lap(weights, queues),
        after_from(weights, queues, 0) =~= after_lap(weights, queues),
    decreases queues.len(),
{
    if queues.len() > 0 {
        lemma_lap_from_start(weights.drop_last(), queues.drop_last());
        assert(weights.last() >= 1);
    }
    assert forall|i: int| 0 <= i < queues.len() implies #[trigger] after_from(
        weights,
        queues,
        0,
    )[i] =~= after_lap(weights, queues)[i] by {
        assert(weights[i] >= 1);
    }
}

/// Round robin is one lap and then round robin on what is left, also when
/// nothing is left.
proof fn lemma_round_robin_unfolds<T>(weights: Seq<nat>, queues: Seq<Seq<T>>)
    requires
        weights.len() == queues.len(),
        positive(weights),
    ensures
        round_robin(weights, queues) =~= lap_from(weights, queues, 0) + round_robin(
            weights,
            after_from(weights, queues, 0),
        ),
{
    lemma_lap_from_start(weights, queues);
    if pending(queues) == 0 {
        lemma_pending_zero(queues);
        assert(idle_from(weights, queues, 0, queues.len() as int));
        lemma_lap_from_idle(weights, queues, 0);
    }
}

/// What is still to come when the cursor stands at `cursor`: the rest of
/// this lap, then round robin on what is left.
spec fn still_to_come<T>(weights: Seq<nat>, queues: Seq<Seq<T>>, cursor: nat) -> Seq<T> {
    lap_from(weights, queues, cursor) + round_robin(weights, after_from(weights, queues, cursor))
}

/// The rest of a lap takes out of the queues exactly what it hands out.
proof fn lemma_lap_from_takes<T>(weights: Seq<nat>, queues: Seq<Seq<T>>, cursor: nat)
    requires
        weights.len() == queues.len(),
    ensures
        pending(after_from(weights, queues, cursor)) + lap_from(weights, queues, cursor).len()
            == pending(queues),
    decreases queues.len(),
{
    let n = queues.len() as int;
    if n > 0 {
        let front = weights.drop_last();
        lemma_lap_from_takes(front, queues.drop_last(), cursor);
        lemma_front_windows(weights);
        assert(after_from(weights, queues, cursor).drop_last() =~= after_from(
            front,
            queues.drop_last(),
            cursor,
        ));
    }
}

/// What is still to come is all that is pending.
proof fn lemma_to_come_len<T>(weights: Seq<nat>, queues: Seq<Seq<T>>, cursor: nat)
    requires
        weights.len() == queues.len(),
        positive(weights),
    ensures
        still_to_come(weights, queues, cursor).len() == pending(queues),
{
    lemma_lap_from_takes(weights, queues, cursor);
    lemma_round_robin_len(weights, after_from(weights, queues, cursor));
}

/// With no queue due in this lap holding anything, what is still to come is
/// round robin from the start of a lap.
proof fn lemma_idle_to_come<T>(weights: Seq<nat>, queues: Seq<Seq<T>>, cursor: nat)
    requires
        weights.len() == queues.len(),
        positive(weights),
        idle_from(weights, queues, cursor, queues.len() as int),
    ensures
        still_to_come(weights, queues, cursor) =~= still_to_come(weights, queues, 0),
        still_to_come(weights, queues, 0) =~= round_robin(weights, queues),
{
    lemma_lap_from_idle(weights, queues, cursor);
    lemma_round_robin_unfolds(weights, queues);
}

/// When source `j` serves, what is still to come is its first item and then
/// what is still to come from the next slot, which is the start of the next
/// lap if the lap is over.
proof fn lemma_serving_to_come<T>(weights: Seq<nat>, queues: Seq<Seq<T>>, cursor: nat, j: int)
    requires
        serves(weights, queues, cursor, j),
    ensures
        0 < serving_slot(weights, cursor, j) + 1 <= total(weights),
        still_to_come(weights, queues, cursor) =~= seq![queues[j][0]] + still_to_come(
            weights,
            served(queues, j),
            (serving_slot(weights, cursor, j) + 1) % total(weights),
        ),
{
    let n = queues.len() as int;
    let next = serving_slot(weights, cursor, j) + 1;
    let sum = total(weights);
    let left = served(queues, j);
    lemma_windows_in_order(weights, j, n);
    lemma_lap_from_serves(weights, queues, cursor, j);
    lemma_after_from_serves(weights, queues, cursor, j);
    if next == sum {
        assert(idle_from(weights, left, next, n)) by {
            assert forall|i: int|
                0 <= i < n && next < start(weights, i) + weights[i] implies (
            #[trigger] left[i]).len() == 0 by {
                lemma_windows_in_order(weights, i, n);
            }
        }
        lemma_idle_to_come(weights, left, next);
        assert(next % sum == 0) by (nonlinear_arith)
            requires
                next == sum,
                sum > 0,
        ;
    } else {
        assert(next % sum == next) by (nonlinear_arith)
            requires
                0 < next < sum,
        ;
    }
}

/// The sources are always ready, and the chain is in step with them: a
/// source that the chain has seen complete has nothing left.
spec fn ready<I, E>(segments: Seq<Segment>, scripts: Seq<Seq<Outcome<I, E>>>) -> bool {
    &&& segments.len() == scripts.len()
    &&& weights_positive(segments)
    &&& all_items(scripts)
    &&& forall|i: int|
        0 <= i < segments.len() && (#[trigger] segments[i]).done ==> scripts[i].len() == 0
}

/// One walk over sources that are always ready.
///
/// Either a source serves: the first one, from the segment of the cursor on,
/// that has an item. Or no source from there on has anything, and the walk
/// ends at the end of the lap without a value.
proof fn lemma_ready_walk<I, E>(
    segments: Seq<Segment>,
    cursor: nat,
    scripts: Seq<Seq<Outcome<I, E>>>,
)
    requires
        ready(segments, scripts),
        cursor < cycle_length(segments),
    ensures
        ({
            let w = walk(segments, cursor, feed(scripts));
            let weights = weights_of(segments);
            &&& weights_of(w.segments) == weights
            &&& same_weights(segments, w.segments)
            &&& ready(w.segments, scripts)
            &&& match w.served {
                Some(j) => {
                    &&& serves(weights, scripts, cursor, j)
                    &&& w.cursor == serving_slot(weights, cursor, j) + 1
                    &&& w.outcome is Item
                    &&& advance(scripts, w.asked) == served(scripts, j)
                },
                None => {
                    &&& idle_from(weights, scripts, cursor, scripts.len() as int)
                    &&& w.cursor == total(weights)
                    &&& !w.outcome.carries_value()
                    &&& w.outcome is Completed <==> cursor == 0
                    &&& advance(scripts, w.asked) == scripts
                },
            }
        }),
    decreases segments.len(),
{
    let n = segments.len() as int;
    let w = walk(segments, cursor, feed(scripts));
    let weights = weights_of(segments);
    let answers = feed(scripts);
    lemma_walk_shape(segments, cursor, answers);
    lemma_walk_hands_on(segments, cursor, answers);
    assert(weights_of(w.segments) =~= weights);
    assert forall|i: int| 0 <= i < n implies (answers[i].carries_value() <==> scripts[i].len()
        > 0) by {
        if scripts[i].len() > 0 {
            assert(scripts[i][0] is Item);
        }
    }
    match w.served {
        Some(j) => {
            assert(advance(scripts, w.asked) =~= served(scripts, j));
        },
        None => {
            assert(advance(scripts, w.asked) =~= scripts);
        },
    }
    lemma_total_of_weights(segments);
    if n > 0 {
        let rest = segments.drop_last();
        let front = scripts.drop_last();
        let head = segments.last();
        lemma_total_of_weights(rest);
        assert(weights_of(rest) =~= weights.drop_last());
        lemma_front_windows(weights);
        assert(answers.drop_last() =~= feed(front));
        assert(head.done ==> scripts[n - 1].len() == 0);
        if cursor < total_weight(rest) {
            assert(ready(rest, front)) by {
                assert forall|i: int, k: int|
                    0 <= i < front.len() && 0 <= k < front[i].len() implies (
                #[trigger] front[i][k]) is Item by {
                    assert(scripts[i][k] is Item);
                }
                assert forall|i: int| 0 <= i < rest.len() implies (#[trigger] rest[i]).weight
                    >= 1 by {
                    assert(segments[i].weight >= 1);
                }
                assert forall|i: int|
                    0 <= i < rest.len() && (#[trigger] rest[i]).done implies front[i].len()
                    == 0 by {
                    assert(segments[i].done);
                }
            }
            lemma_ready_walk(rest, cursor, front);
            let below = walk(rest, cursor, feed(front));
            match below.served {
                Some(j) => {
                    assert(serves(weights, scripts, cursor, j)) by {
                        assert forall|i: int|
                            0 <= i < j && cursor < start(weights, i)
                                + weights[i] implies (#[trigger] scripts[i]).len() == 0 by {
                            assert(front[i].len() == 0);
                        }
                    }
                },
                None => {
                    assert(idle_from(weights, scripts, cursor, n - 1)) by {
                        assert forall|i: int|
                            0 <= i < n - 1 && cursor < start(weights, i)
                                + weights[i] implies (#[trigger] scripts[i]).len() == 0 by {
                            assert(front[i].len() == 0);
                        }
                    }
                },
            }
            assert(ready(w.segments, scripts)) by {
                assert forall|i: int|
                    0 <= i < n && (#[trigger] w.segments[i]).done implies scripts[i].len()
                    == 0 by {
                    if i < n - 1 {
                        assert(below.segments[i].done);
                    }
                }
            }
        } else {
            assert(idle_from(weights, scripts, cursor, n - 1)) by {
                assert forall|i: int|
                    0 <= i < n - 1 && cursor < start(weights, i) + weights[i] implies (
                #[trigger] scripts[i]).len() == 0 by {
                    lemma_windows_in_order(weights, i, n - 1);
                }
            }
            assert(ready(w.segments, scripts)) by {
                assert forall|i: int|
                    0 <= i < n && (#[trigger] w.segments[i]).done implies scripts[i].len()
                    == 0 by {
                    if i < n - 1 {
                        assert(segments[i].done);
                    }
                }
            }
        }
    }
}

/// However far a chain of always-ready sources has come, each poll that
/// follows hands out the next item of what is still to come, as long as
/// anything is.
proof fn lemma_ready_run<I, E>(
    segments: Seq<Segment>,
    cursor: nat,
    scripts: Seq<Seq<Outcome<I, E>>>,
    polls: nat,
)
    requires
        ready(segments, scripts),
        cursor < cycle_length(segments),
    ensures
        run(segments, cursor, scripts, polls) =~= first_of(
            still_to_come(weights_of(segments), scripts, cursor),
            polls,
        ),
    decreases polls,
{
    let weights = weights_of(segments);
    let n = segments.len() as int;
    let to_come = still_to_come(weights, scripts, cursor);
    assert(positive(weights)) by {
        assert forall|i: int| 0 <= i < weights.len() implies #[trigger] weights[i] >= 1 by {
            assert(segments[i].weight >= 1);
        }
    }
    lemma_to_come_len(weights, scripts, cursor);
    if polls > 0 {
        let one = walk(segments, cursor, feed(scripts));
        let s = step(segments, cursor, scripts);
        lemma_ready_walk(segments, cursor, scripts);
        lemma_total_of_weights(segments);
        lemma_same_weights_total(segments, one.segments);
        let cycle = cycle_length(segments);
        let rest = (polls - 1) as nat;
        match one.served {
            Some(j) => {
                lemma_serving_to_come(weights, scripts, cursor, j);
                lemma_ready_served(one.segments, scripts, j);
                assert(s.cursor < cycle) by (nonlinear_arith)
                    requires
                        s.cursor == one.cursor % cycle,
                        cycle > 0,
                ;
                lemma_ready_run(one.segments, s.cursor, s.scripts, rest);
                lemma_to_come_len(weights, s.scripts, s.cursor);
            },
            None => {
                lemma_idle_to_come(weights, scripts, cursor);
                assert(total(weights) % cycle == 0) by (nonlinear_arith)
                    requires
                        cycle > 0,
                        total(weights) == cycle || total(weights) == 0,
                ;
                if cursor == 0 {
                    lemma_idle_is_empty(weights, scripts);
                    lemma_ready_run(one.segments, 0, scripts, rest);
                } else {
                    let two = walk(one.segments, 0, feed(scripts));
                    lemma_ready_walk(one.segments, 0, scripts);
                    lemma_same_weights_total(one.segments, two.segments);
                    match two.served {
                        Some(j) => {
                            lemma_serving_to_come(weights, scripts, 0, j);
                            lemma_ready_served(two.segments, scripts, j);
                            assert(s.cursor < cycle) by (nonlinear_arith)
                                requires
                                    s.cursor == two.cursor % cycle,
                                    cycle > 0,
                            ;
                            lemma_ready_run(two.segments, s.cursor, s.scripts, rest);
                            lemma_to_come_len(weights, s.scripts, s.cursor);
                        },
                        None => {
                            lemma_idle_is_empty(weights, scripts);
                            lemma_ready_run(two.segments, 0, scripts, rest);
                        },
                    }
                }
            },
        }
    }
}

/// If nothing is due at the start of a lap, nothing is pending at all.
proof fn lemma_idle_is_empty<T>(weights: Seq<nat>, queues: Seq<Seq<T>>)
    requires
        weights.len() == queues.len(),
        positive(weights),
        idle_from(weights, queues, 0, queues.len() as int),
    ensures
        pending(queues) == 0,
{
    lemma_pending_zero(queues);
    assert forall|i: int| 0 <= i < queues.len() implies (#[trigger] queues[i]).len() == 0 by {
        assert(weights[i] >= 1);
    }
}

/// A chain in step with its sources stays in step when a source that has not
/// completed gives an item.
proof fn lemma_ready_served<I, E>(segments: Seq<Segment>, scripts: Seq<Seq<Outcome<I, E>>>, j: int)
    requires
        ready(segments, scripts),
        0 <= j < scripts.len(),
        scripts[j].len() > 0,
    ensures
        ready(segments, served(scripts, j)),
{
    let left = served(scripts, j);
    assert forall|i: int, k: int|
        0 <= i < left.len() && 0 <= k < left[i].len() implies #[trigger] left[i][k] is Item by {
        if i == j {
            assert(scripts[j][k + 1] is Item);
        } else {
            assert(scripts[i][k] is Item);
        }
    }
    assert forall|i: int|
        0 <= i < segments.len() && (#[trigger] segments[i]).done implies left[i].len() == 0 by {
        assert(scripts[i].len() == 0);
    }
}

/// Round robin does not look at the items: it hands out the scripts of
/// always-ready sources in the order in which it hands out their queues.
proof fn lemma_round_robin_items<I, E>(weights: Seq<nat>, queues: Seq<Seq<I>>)
    requires
        weights.len() == queues.len(),
        positive(weights),
    ensures
        round_robin(weights, always_ready::<I, E>(queues)) =~= items(round_robin(weights, queues)),
        pending(always_ready::<I, E>(queues)) == pending(queues),
    decreases pending(queues),
{
    let scripts = always_ready::<I, E>(queues);
    lemma_lap_items::<I, E>(weights, queues);
    if pending(queues) > 0 {
        let left = after_lap(weights, queues);
        lemma_lap_takes(weights, queues);
        lemma_round_robin_items::<I, E>(weights, left);
        assert(after_lap(weights, scripts) =~= always_ready::<I, E>(left)) by {
            assert forall|i: int| 0 <= i < queues.len() implies after_turn(
                weights[i],
                #[trigger] scripts[i],
            ) =~= items(after_turn(weights[i], queues[i])) by {}
        }
        assert(items::<I, E>(lap(weights, queues) + round_robin(weights, left)) =~= items(
            lap(weights, queues),
        ) + items(round_robin(weights, left)));
    }
}

/// A lap does not look at the items either.
proof fn lemma_lap_items<I, E>(weights: Seq<nat>, queues: Seq<Seq<I>>)
    requires
        weights.len() == queues.len(),
    ensures
        lap(weights, always_ready::<I, E>(queues)) =~= items(lap(weights, queues)),
        pending(always_ready::<I, E>(queues)) == pending(queues),
    decreases queues.len(),
{
    let scripts = always_ready::<I, E>(queues);
    if queues.len() > 0 {
        lemma_lap_items::<I, E>(weights.drop_last(), queues.drop_last());
        assert(scripts.drop_last() =~= always_ready::<I, E>(queues.drop_last()));
        assert(turn(weights.last(), scripts.last()) =~= items(
            turn(weights.last(), queues.last()),
        ));
        assert(items::<I, E>(
            lap(weights.drop_last(), queues.drop_last()) + turn(weights.last(), queues.last()),
        ) =~= items(lap(weights.drop_last(), queues.drop_last())) + items(
            turn(weights.last(), queues.last()),
        ));
    }
}

/// A fresh chain of always-ready sources hands out their items in weighted
/// round robin, one with every poll.
///
/// Lap after lap, each source in the order of appending gives as many items
/// as its weight, or what it has left, and a source that has nothing left is
/// passed over, so that the sources after it come to their turn at once. The
/// first `polls` polls hand out the first `polls` items of that order; once
/// everything has been handed out, nothing more comes.
///
/// With one source, whatever its weight, this is the source's own sequence:
/// see [`crate::round_robin::lemma_round_robin_of_one`].
pub proof fn lemma_ready_chain_is_round_robin<I, E>(
    weights: Seq<nat>,
    queues: Seq<Seq<I>>,
    polls: nat,
)
    requires
        weights.len() == queues.len(),
        positive(weights),
    ensures
        run(fresh(weights), 0, always_ready::<I, E>(queues), polls) == items::<I, E>(
            first_of(round_robin(weights, queues), polls),
        ),
        round_robin(weights, queues).len() == pending(queues),
{
    let segments = fresh(weights);
    let scripts = always_ready::<I, E>(queues);
    assert(weights_of(segments) =~= weights);
    assert(ready(segments, scripts));
    lemma_ready_run(segments, 0, scripts, polls);
    lemma_round_robin_unfolds(weights, scripts);
    lemma_round_robin_items::<I, E>(weights, queues);
    lemma_round_robin_len(weights, queues);
    assert(first_of(items::<I, E>(round_robin(weights, queues)), polls) =~= items(
        first_of(round_robin(weights, queues), polls),
    ));
}

} // verus!
