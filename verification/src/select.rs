//! The merged source.

use vstd::prelude::*;
use crate::chain::IncompleteSelect;
use crate::outcome::Kind;
use crate::outcome::Outcome;
use crate::walk::cycle_length;
use crate::walk::finished;
use crate::walk::lemma_poll_shape;
use crate::walk::lemma_same_weights_total;
use crate::walk::lemma_walk_shape;
use crate::walk::needs_restart;
use crate::walk::poll_gives;
use crate::walk::walk_gives;
use crate::walk::Segment;

verus! {

/// Several weighted sources merged into one.
///
/// It does nothing unless polled. Dropping it drops the chain and every
/// source in it.
#[must_use]
pub struct Select<N> {
    head: N,
    cursor: u64,
    limit: u64,
}

impl<N> Select<N> {
    /// The chain that is polled.
    pub closed spec fn head(&self) -> N {
        self.head
    }

    /// How far into the lap the next poll begins.
    pub closed spec fn cursor(&self) -> nat {
        self.cursor as nat
    }

    /// The length of a lap.
    pub closed spec fn limit(&self) -> nat {
        self.limit as nat
    }

    /// Puts a chain and the length of its lap together, with the cursor at
    /// the start of the lap.
    pub(crate) fn assemble(head: N, limit: u64) -> (select: Self)
        ensures
            select.head() == head,
            select.cursor() == 0,
            select.limit() == limit,
    {
        Select { head, cursor: 0, limit }
    }

    /// The length of a lap: the weights of all segments together, or 1 if
    /// there is none.
    pub fn cycle_length(&self) -> (length: u64)
        ensures
            length == self.limit(),
    {
        self.limit
    }
}

impl<N: IncompleteSelect> Select<N> {
    /// The segments of the chain in the order in which they were appended.
    pub open spec fn segments(&self) -> Seq<Segment> {
        self.head().segments()
    }

    /// The chain keeps its books, the lap is as long as the chain says, and
    /// the cursor lies inside the lap.
    pub open spec fn wf(&self) -> bool {
        &&& self.head().wf()
        &&& self.limit() == cycle_length(self.segments())
        &&& self.cursor() < self.limit()
    }

    /// Nothing more will come: every source has completed and the cursor
    /// stands at the start of a lap.
    pub open spec fn is_finished(&self) -> bool {
        finished(self.segments(), self.cursor())
    }

    /// Polls the merged source once.
    ///
    /// The chain is walked from the cursor. A walk that began inside a lap
    /// and found nothing is followed at once by a walk from the start of the
    /// lap, so that one poll reaches every source that is due. The outcome is
    /// that of the last walk, as [`crate::walk::poll_once`] says for the
    /// answers that the sources gave. An item or a failure is handed on as
    /// the source gave it, on the very poll in which it came.
    ///
    /// `NotReady` means that nothing was ready; each source that was asked and
    /// was not ready has arranged to wake the task that polls. Once a poll has
    /// reported `Completed`, every later poll does so too and leaves the
    /// merged source as it is: no source is asked again.
    pub fn poll(&mut self) -> (outcome: Outcome<N::Item, N::Error>)
        requires
            old(self).wf(),
        ensures
            final(self).wf(),
            exists|first: Seq<Kind>, second: Seq<Kind>| #[trigger]
                poll_gives(
                    old(self).segments(),
                    old(self).cursor(),
                    first,
                    second,
                    final(self).cursor(),
                    outcome.kind(),
                    final(self).segments(),
                ),
            old(self).is_finished() ==> outcome is Completed && *final(self) == *old(self),
            outcome is Completed ==> final(self).is_finished(),
    {
        let ghost before = self.segments();
        let ghost cursor = self.cursor();
        proof {
            self.head.lemma_wf();
        }
        let one = self.head.poll_chain(self.cursor);
        let ghost between = self.segments();
        let ghost first = choose|answers: Seq<Kind>| #[trigger]
            walk_gives(before, cursor, answers, one.0 as nat, one.1.kind(), between);
        let ghost mut second = first;
        proof {
            lemma_walk_shape(before, cursor, first);
            lemma_same_weights_total(before, between);
        }
        let last = if needs_restart(self.cursor, &one.1) {
            let again = self.head.poll_chain(0);
            proof {
                second = choose|answers: Seq<Kind>| #[trigger]
                    walk_gives(
                        between,
                        0,
                        answers,
                        again.0 as nat,
                        again.1.kind(),
                        self.segments(),
                    );
            }
            again
        } else {
            one
        };
        self.cursor = last.0 % self.limit;
        proof {
            lemma_poll_shape(before, cursor, first, second);
            lemma_same_weights_total(before, self.segments());
            assert(poll_gives(
                before,
                cursor,
                first,
                second,
                self.cursor(),
                last.1.kind(),
                self.segments(),
            ));
        }
        last.1
    }
}

} // verus!
