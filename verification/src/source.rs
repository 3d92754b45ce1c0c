//! Sources of items, and the adapter that stops asking a source once it has
//! completed.

use vstd::prelude::*;
use futures::stream::Stream;
use futures::Async;
use crate::outcome::Kind;
use crate::outcome::Outcome;

verus! {

/// A stream of the `futures` crate, boxed so that sources of different types
/// fit into one chain.
///
/// The verifier does not look inside, and nothing is taken for granted of a stream:
/// what it answers, and when, is its own affair.
#[verifier::external_body]
#[verifier::reject_recursive_types(I)]
#[verifier::reject_recursive_types(E)]
pub struct Source<'a, I, E>(pub Box<dyn Stream<Item = I, Error = E> + 'a>);

/// A source together with the memory of its completion.
///
/// Polls are handed to the source until it answers [`Outcome::Completed`].
/// From then on the adapter answers `Completed` itself and leaves the source
/// alone. A failure does not end a source: it is asked again at the next
/// poll, as streams of `futures` allow.
#[verifier::reject_recursive_types(I)]
#[verifier::reject_recursive_types(E)]
pub struct Fused<'a, I, E> {
    source: Source<'a, I, E>,
    done: bool,
}

/// The shape of what a poll of an adapter answers, given whether it had
/// completed and the shape of what its source answers when asked.
pub open spec fn fused_answer(done: bool, answer: Kind) -> Kind {
    if done {
        Kind::Completed
    } else {
        answer
    }
}

/// Whether an adapter has completed after such a poll.
pub open spec fn fused_done(done: bool, answer: Kind) -> bool {
    done || answer is Completed
}

/// Polls the stream inside the adapter with `Stream::poll` of `futures` and
/// renames the four shapes of its answer.
///
/// Nothing is promised of the answer. A stream may panic when polled after it
/// has finished, so the adapter must not have seen it complete. The call
/// touches the stream alone: the adapter's memory stays as it was.
///
/// A stream that is not ready arranges its own wake-up with the task that
/// polls it, so this belongs inside a task, as every poll of a stream does.
#[verifier::external_body]
fn ask<I, E>(adapter: &mut Fused<'_, I, E>) -> (answer: Outcome<I, E>)
    requires
        !old(adapter).done,
    ensures
        final(adapter).done == old(adapter).done,
{
    match adapter.source.0.poll() {
        Ok(Async::Ready(Some(item))) => Outcome::Item(item),
        Ok(Async::Ready(None)) => Outcome::Completed,
        Ok(Async::NotReady) => Outcome::NotReady,
        Err(error) => Outcome::Failure(error),
    }
}

impl<'a, I, E> Fused<'a, I, E> {
    /// Whether the source has answered `Completed`.
    pub closed spec fn is_done(&self) -> bool {
        self.done
    }

    /// The source inside.
    pub closed spec fn inner(&self) -> Source<'a, I, E> {
        self.source
    }

    /// Wraps a source that has not completed yet.
    pub fn new(source: Source<'a, I, E>) -> (adapter: Self)
        ensures
            !adapter.is_done(),
            adapter.inner() == source,
    {
        Fused { source, done: false }
    }

    /// Polls once. A completed adapter answers `Completed` without asking its
    /// source, which it leaves as it is; any other answer is the source's own.
    /// The adapter has completed afterwards if it had before or if the source
    /// has now answered `Completed`.
    pub fn poll(&mut self) -> (heard: Outcome<I, E>)
        ensures
            old(self).is_done() ==> heard is Completed && *final(self) == *old(self),
            final(self).is_done() == fused_done(old(self).is_done(), heard.kind()),
    {
        if self.done {
            Outcome::Completed
        } else {
            let answer = ask(self);
            if let Outcome::Completed = answer {
                self.done = true;
            }
            answer
        }
    }
}

} // verus!
