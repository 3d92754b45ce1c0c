//! The chain of weighted segments and the way it is built.
//!
//! A chain starts empty, with [`new`], and grows by one segment with every
//! [`IncompleteSelect::append`]. Each value owns the chain it was appended
//! to, so a chain is never shared and never changed behind its owner's back.
//! [`IncompleteSelect::build`] closes it.

use vstd::prelude::*;
use std::marker::PhantomData;
use crate::outcome::Kind;
use crate::outcome::Outcome;
use crate::select::Select;
use crate::source::Fused;
use crate::source::Source;
use crate::walk::all_done;
use crate::walk::cycle_length;
use crate::walk::lemma_same_weights_total;
use crate::walk::lemma_total_weight_push;
use crate::walk::lemma_walk_shape;
use crate::walk::settle;
use crate::walk::total_weight;
use crate::walk::walk_gives;
use crate::walk::weights_positive;
use crate::walk::Segment;

verus! {

/// The end of every chain: no segment at all.
struct Terminal<I, E>(PhantomData<(I, E)>);

/// One source with its weight and its window in the lap, on top of the
/// segments appended before it.
#[verifier::reject_recursive_types(I)]
#[verifier::reject_recursive_types(E)]
pub struct SelectPart<'a, I, E, N> {
    stream: Fused<'a, I, E>,
    weight: u32,
    start_at: u64,
    prev_start_at: u64,
    next: N,
}

impl<'a, I, E, N> SelectPart<'a, I, E, N> {
    /// The chain that this segment was appended to.
    pub closed spec fn rest(&self) -> N {
        self.next
    }

    /// The weight of this segment.
    pub closed spec fn weight(&self) -> nat {
        self.weight as nat
    }

    /// The source of this segment.
    pub closed spec fn source(&self) -> Source<'a, I, E> {
        self.stream.inner()
    }

    /// Whether the source of this segment has completed.
    pub closed spec fn source_done(&self) -> bool {
        self.stream.is_done()
    }

    /// The first slot of this segment's window.
    pub closed spec fn window_start(&self) -> nat {
        self.start_at as nat
    }

    /// The slot after the last of this segment's window.
    pub closed spec fn window_end(&self) -> nat {
        self.prev_start_at as nat
    }
}

impl<'a, I, E, N: IncompleteSelect<Item = I, Error = E>> SelectPart<'a, I, E, N> {
    /// Appending adds exactly the weight of the new segment: the segments are
    /// those of the chain before and the new one after them, and the weights
    /// together, which are the length of the lap, have grown by that weight.
    pub proof fn lemma_append_adds_weight(&self)
        requires
            self.wf(),
        ensures
            self.segments() == self.rest().segments().push(
                Segment { weight: self.weight(), done: self.source_done() },
            ),
            total_weight(self.segments()) == total_weight(self.rest().segments()) + self.weight(),
            cycle_length(self.segments()) == total_weight(self.segments()),
            total_weight(self.segments()) == self.window_end(),
    {
        lemma_total_weight_push(
            self.rest().segments(),
            Segment { weight: self.weight(), done: self.source_done() },
        );
    }
}

/// A chain of weighted sources that can still grow.
pub trait IncompleteSelect: Sized {
    /// What the sources give.
    type Item;

    /// How the sources fail.
    type Error;

    /// The segments in the order in which they were appended.
    spec fn segments(&self) -> Seq<Segment>;

    /// The chain keeps its books: every weight is at least 1, and every
    /// window starts where the one before it ends.
    spec fn wf(&self) -> bool;

    /// A chain that keeps its books has positive weights, and they fit
    /// together into the cursor's range.
    proof fn lemma_wf(&self)
        requires
            self.wf(),
        ensures
            weights_positive(self.segments()),
            total_weight(self.segments()) <= u64::MAX,
    ;

    /// The weights of all segments together.
    fn cumulative_weight(&self) -> (sum: u64)
        requires
            self.wf(),
        ensures
            sum == total_weight(self.segments()),
    ;

    /// Appends a source with its weight. The new segment's window starts at
    /// the sum of the weights appended so far and is `weight` slots long.
    ///
    /// A weight of 0 is a mistake of the caller, and so is a chain whose
    /// weights together no longer fit into the cursor.
    fn append<'a>(self, source: Source<'a, Self::Item, Self::Error>, weight: u32) -> (chain:
        SelectPart<'a, Self::Item, Self::Error, Self>)
        requires
            self.wf(),
            weight >= 1,
            total_weight(self.segments()) + weight <= u64::MAX,
        ensures
            chain.rest() == self,
            chain.source() == source,
            chain.weight() == weight,
            !chain.source_done(),
            chain.window_start() == total_weight(self.segments()),
            chain.window_end() == total_weight(self.segments()) + weight,
    ;

    /// Closes the chain. The lap is as long as the weights together, or 1
    /// without any segment, and the cursor starts at 0.
    fn build(self) -> (select: Select<Self>)
        requires
            self.wf(),
        ensures
            select.head() == self,
            select.cursor() == 0,
            select.limit() == cycle_length(self.segments()),
            select.cursor() < select.limit(),
    ;

    /// Walks the chain once from `cursor`, as [`crate::walk::walk`] says, for
    /// the answers that the sources give. Returns the cursor after the walk
    /// and what the walk reports. A chain whose sources have all completed
    /// is left as it is: no source is asked.
    fn poll_chain(&mut self, cursor: u64) -> (walked: (u64, Outcome<Self::Item, Self::Error>))
        requires
            old(self).wf(),
            cursor < cycle_length(old(self).segments()),
        ensures
            final(self).wf(),
            exists|answers: Seq<Kind>| #[trigger]
                walk_gives(
                    old(self).segments(),
                    cursor as nat,
                    answers,
                    walked.0 as nat,
                    walked.1.kind(),
                    final(self).segments(),
                ),
            all_done(old(self).segments()) ==> *final(self) == *old(self),
    ;
}

impl<I, E> IncompleteSelect for Terminal<I, E> {
    type Item = I;

    type Error = E;

    open spec fn segments(&self) -> Seq<Segment> {
        Seq::empty()
    }

    open spec fn wf(&self) -> bool {
        true
    }

    proof fn lemma_wf(&self) {
    }

    fn cumulative_weight(&self) -> (sum: u64) {
        0
    }

    fn append<'a>(self, source: Source<'a, I, E>, weight: u32) -> (chain: SelectPart<
        'a,
        I,
        E,
        Self,
    >) {
        SelectPart {
            stream: Fused::new(source),
            weight,
            start_at: 0,
            prev_start_at: u64::from(weight),
            next: self,
        }
    }

    fn build(self) -> (select: Select<Self>)
        ensures
            select.limit() == 1,
    {
        Select::assemble(self, 1)
    }

    fn poll_chain(&mut self, cursor: u64) -> (walked: (u64, Outcome<I, E>))
        ensures
            walked.0 == 0,
            walked.1 is Completed,
    {
        let walked = (0u64, Outcome::Completed);
        proof {
            assert(walk_gives(
                old(self).segments(),
                cursor as nat,
                Seq::<Kind>::empty(),
                walked.0 as nat,
                walked.1.kind(),
                self.segments(),
            ));
        }
        walked
    }
}

impl<'b, I, E, N> IncompleteSelect for SelectPart<'b, I, E, N> where
    N: IncompleteSelect<Item = I, Error = E>,
 {
    type Item = I;

    type Error = E;

    open spec fn segments(&self) -> Seq<Segment> {
        self.rest().segments().push(Segment { weight: self.weight(), done: self.source_done() })
    }

    open spec fn wf(&self) -> bool {
        &&& self.rest().wf()
        &&& self.weight() >= 1
        &&& self.window_start() == total_weight(self.rest().segments())
        &&& self.window_end() == self.window_start() + self.weight()
    }

    proof fn lemma_wf(&self) {
        self.rest().lemma_wf();
        self.lemma_append_adds_weight();
    }

    fn cumulative_weight(&self) -> (sum: u64) {
        proof {
            self.lemma_append_adds_weight();
        }
        self.prev_start_at
    }

    fn append<'a>(self, source: Source<'a, I, E>, weight: u32) -> (chain: SelectPart<
        'a,
        I,
        E,
        Self,
    >) {
        proof {
            self.lemma_append_adds_weight();
        }
        let start_at = self.prev_start_at;
        SelectPart {
            stream: Fused::new(source),
            weight,
            start_at,
            prev_start_at: start_at + u64::from(weight),
            next: self,
        }
    }

    fn build(self) -> (select: Select<Self>)
        ensures
            select.limit() == total_weight(self.segments()),
    {
        proof {
            self.lemma_append_adds_weight();
        }
        let limit = self.prev_start_at;
        Select::assemble(self, limit)
    }

    fn poll_chain(&mut self, cursor: u64) -> (walked: (u64, Outcome<I, E>)) {
        let ghost before = self.segments();
        let ghost rest = self.next.segments();
        proof {
            self.lemma_wf();
            self.next.lemma_wf();
            assert(before.drop_last() =~= rest);
            if all_done(before) {
                assert(before.last().done);
                assert forall|i: int| 0 <= i < rest.len() implies (#[trigger] rest[i]).done by {
                    assert(before[i].done);
                }
            }
        }
        let ghost mut lower: Seq<Kind> = Seq::new(rest.len(), |i: int| Kind::NotReady);
        let mut reached = cursor;
        let mut lower_exhausted = cursor == 0;
        if cursor < self.start_at {
            let below = self.next.poll_chain(cursor);
            proof {
                let after = self.next.segments();
                lower = choose|answers: Seq<Kind>| #[trigger]
                    walk_gives(rest, cursor as nat, answers, below.0 as nat, below.1.kind(), after);
                lemma_walk_shape(rest, cursor as nat, lower);
                lemma_same_weights_total(rest, after);
            }
            if below.1.is_value() {
                proof {
                    let answers = lower.push(Kind::NotReady);
                    assert(answers.drop_last() =~= lower);
                    assert(walk_gives(
                        before,
                        cursor as nat,
                        answers,
                        below.0 as nat,
                        below.1.kind(),
                        self.segments(),
                    ));
                }
                return below;
            }
            reached = below.0;
            lower_exhausted = match below.1 {
                Outcome::Completed => true,
                _ => false,
            };
        }
        let heard = self.stream.poll();
        let walked = settle(reached, self.prev_start_at, lower_exhausted, heard);
        proof {
            let answers = lower.push(heard.kind());
            assert(answers.drop_last() =~= lower);
            assert(walk_gives(
                before,
                cursor as nat,
                answers,
                walked.0 as nat,
                walked.1.kind(),
                self.segments(),
            ));
        }
        walked
    }
}

/// An empty chain for sources of items `I` that fail with `E`.
pub fn new<I, E>() -> (chain: impl IncompleteSelect<Item = I, Error = E>)
    ensures
        chain.wf(),
        chain.segments().len() == 0,
{
    Terminal(PhantomData)
}

} // verus!
