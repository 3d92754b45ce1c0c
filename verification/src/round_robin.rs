//! Weighted round robin over queues of items.
//!
//! This is the order in which a chain hands out the items of sources that
//! are always ready; [`crate::ready`] proves that.

use vstd::prelude::*;

verus! {

/// What a source gives in its turn: as many items as its weight, or all it
/// has left if that is less.
pub open spec fn turn<T>(weight: nat, queue: Seq<T>) -> Seq<T> {
    if weight <= queue.len() {
        queue.take(weight as int)
    } else {
        queue
    }
}

/// What is left of a queue after its turn.
pub open spec fn after_turn<T>(weight: nat, queue: Seq<T>) -> Seq<T> {
    if weight <= queue.len() {
        queue.skip(weight as int)
    } else {
        Seq::empty()
    }
}

/// One lap: the turn of each source, in the order of the sources.
pub open spec fn lap<T>(weights: Seq<nat>, queues: Seq<Seq<T>>) -> Seq<T>
    decreases queues.len(),
{
    if queues.len() == 0 || weights.len() != queues.len() {
        Seq::empty()
    } else {
        lap(weights.drop_last(), queues.drop_last()) + turn(weights.last(), queues.last())
    }
}

/// What is left of the queues after one lap.
pub open spec fn after_lap<T>(weights: Seq<nat>, queues: Seq<Seq<T>>) -> Seq<Seq<T>> {
    Seq::new(queues.len(), |i: int| after_turn(weights[i], queues[i]))
}

/// The number of items in all the queues together.
pub open spec fn pending<T>(queues: Seq<Seq<T>>) -> nat
    decreases queues.len(),
{
    if queues.len() == 0 {
        0
    } else {
        pending(queues.drop_last()) + queues.last().len()
    }
}

/// Every weight is at least 1.
pub open spec fn positive(weights: Seq<nat>) -> bool {
    forall|i: int| 0 <= i < weights.len() ==> #[trigger] weights[i] >= 1
}

/// Weighted round robin: lap after lap, each source in its turn gives as
/// many items as its weight, or what it has left, until nothing is left.
pub open spec fn round_robin<T>(weights: Seq<nat>, queues: Seq<Seq<T>>) -> Seq<T>
    decreases pending(queues),
{
    if weights.len() != queues.len() || !positive(weights) || pending(queues) == 0 {
        Seq::empty()
    } else {
        proof {
            lemma_lap_takes(weights, queues);
        }
        lap(weights, queues) + round_robin(weights, after_lap(weights, queues))
    }
}

/// A lap takes out of the queues exactly what it hands out, and it hands out
/// something as long as anything is left.
pub proof fn lemma_lap_takes<T>(weights: Seq<nat>, queues: Seq<Seq<T>>)
    requires
        weights.len() == queues.len(),
        positive(weights),
    ensures
        pending(after_lap(weights, queues)) + lap(weights, queues).len() == pending(queues),
        pending(queues) > 0 ==> lap(weights, queues).len() > 0,
    decreases queues.len(),
{
    if queues.len() > 0 {
        lemma_lap_takes(weights.drop_last(), queues.drop_last());
        assert(after_lap(weights, queues).drop_last() =~= after_lap(
            weights.drop_last(),
            queues.drop_last(),
        ));
        assert(weights.last() >= 1);
    }
}

/// The first of a list, as many as asked for, or all if there are fewer.
pub open spec fn first_of<T>(list: Seq<T>, count: nat) -> Seq<T> {
    if count <= list.len() {
        list.take(count as int)
    } else {
        list
    }
}

/// Round robin hands out everything that is pending.
pub proof fn lemma_round_robin_len<T>(weights: Seq<nat>, queues: Seq<Seq<T>>)
    requires
        weights.len() == queues.len(),
        positive(weights),
    ensures
        round_robin(weights, queues).len() == pending(queues),
    decreases pending(queues),
{
    if pending(queues) > 0 {
        lemma_lap_takes(weights, queues);
        lemma_round_robin_len(weights, after_lap(weights, queues));
    }
}

/// Round robin over a single source is that source's sequence, whatever its
/// weight.
pub proof fn lemma_round_robin_of_one<T>(weight: nat, queue: Seq<T>)
    requires
        weight >= 1,
    ensures
        round_robin(seq![weight], seq![queue]) == queue,
    decreases queue.len(),
{
    let weights = seq![weight];
    let queues = seq![queue];
    assert(queues.drop_last() =~= Seq::<Seq<T>>::empty());
    assert(weights.drop_last() =~= Seq::<nat>::empty());
    assert(pending(queues.drop_last()) == 0);
    assert(pending(queues) == queue.len());
    assert(lap(weights.drop_last(), queues.drop_last()) =~= Seq::<T>::empty());
    assert(lap(weights, queues) =~= turn(weight, queue));
    if queue.len() > 0 {
        assert(after_lap(weights, queues) =~= seq![after_turn(weight, queue)]);
        lemma_round_robin_of_one(weight, after_turn(weight, queue));
        assert(turn(weight, queue) + after_turn(weight, queue) =~= queue);
    } else {
        assert(queue =~= Seq::<T>::empty());
    }
}

/// The sum of the weights.
pub open spec fn total(weights: Seq<nat>) -> nat
    decreases weights.len(),
{
    if weights.len() == 0 {
        0
    } else {
        total(weights.drop_last()) + weights.last()
    }
}

/// As long as no source runs short, a lap hands out of each source exactly
/// as many items as its weight, which makes as many items as the weights
/// together.
pub proof fn lemma_full_lap<T>(weights: Seq<nat>, queues: Seq<Seq<T>>)
    requires
        weights.len() == queues.len(),
        forall|i: int| 0 <= i < queues.len() ==> weights[i] <= (#[trigger] queues[i]).len(),
    ensures
        forall|i: int|
            0 <= i < queues.len() ==> #[trigger] turn(weights[i], queues[i]) == queues[i].take(
                weights[i] as int,
            ),
        lap(weights, queues).len() == total(weights),
    decreases queues.len(),
{
    if queues.len() > 0 {
        assert forall|i: int| 0 <= i < queues.len() - 1 implies weights.drop_last()[i] <= (
        #[trigger] queues.drop_last()[i]).len() by {
            assert(weights[i] <= queues[i].len());
        }
        lemma_full_lap(weights.drop_last(), queues.drop_last());
        assert(weights.last() <= queues.last().len());
    }
    assert forall|i: int| 0 <= i < queues.len() implies #[trigger] turn(weights[i], queues[i])
        == queues[i].take(weights[i] as int) by {
        assert(weights[i] <= queues[i].len());
    }
}

/// A source that has nothing left is passed over: the others are served as
/// if it were not in the chain, so that its window goes to those after it.
pub proof fn lemma_empty_source_is_passed_over<T>(weights: Seq<nat>, queues: Seq<Seq<T>>, i: int)
    requires
        weights.len() == queues.len(),
        positive(weights),
        0 <= i < queues.len(),
        queues[i].len() == 0,
    ensures
        round_robin(weights, queues) == round_robin(weights.remove(i), queues.remove(i)),
    decreases pending(queues),
{
    let fewer = weights.remove(i);
    let others = queues.remove(i);
    lemma_lap_without(weights, queues, i);
    assert(positive(fewer)) by {
        assert forall|k: int| 0 <= k < fewer.len() implies #[trigger] fewer[k] >= 1 by {
            if k < i {
                assert(weights[k] >= 1);
            } else {
                assert(weights[k + 1] >= 1);
            }
        }
    }
    if pending(queues) > 0 {
        let left = after_lap(weights, queues);
        lemma_lap_takes(weights, queues);
        assert(left.remove(i) =~= after_lap(fewer, others));
        lemma_empty_source_is_passed_over(weights, left, i);
    }
}

/// A lap hands out the same, and as much is pending, with or without a
/// source that has nothing left.
proof fn lemma_lap_without<T>(weights: Seq<nat>, queues: Seq<Seq<T>>, i: int)
    requires
        weights.len() == queues.len(),
        0 <= i < queues.len(),
        queues[i].len() == 0,
    ensures
        lap(weights, queues) =~= lap(weights.remove(i), queues.remove(i)),
        pending(queues) == pending(queues.remove(i)),
    decreases queues.len(),
{
    let n = queues.len() as int;
    if i < n - 1 {
        lemma_lap_without(weights.drop_last(), queues.drop_last(), i);
        assert(weights.remove(i).drop_last() =~= weights.drop_last().remove(i));
        assert(queues.remove(i).drop_last() =~= queues.drop_last().remove(i));
    } else {
        assert(weights.remove(i) =~= weights.drop_last());
        assert(queues.remove(i) =~= queues.drop_last());
    }
}

} // verus!
