//! What one poll of a source can give.

use vstd::prelude::*;

verus! {

/// The answer of a source, or of the merged source, to one poll.
#[derive(Debug, PartialEq, Eq)]
pub enum Outcome<I, E> {
    /// The next item.
    Item(I),
    /// Nothing yet. The source has arranged to wake the caller.
    NotReady,
    /// Nothing ever again.
    Completed,
    /// The source failed. The value is handed on as it came.
    Failure(E),
}

/// The shape of an answer, without the value it may carry. The walk over the
/// chain is decided by shapes alone.
#[derive(Debug, Clone, Copy, PartialEq, Eq, Structural)]
pub enum Kind {
    /// An item.
    Item,
    /// Nothing yet.
    NotReady,
    /// Nothing ever again.
    Completed,
    /// A failure.
    Failure,
}

impl Kind {
    /// An item or a failure: an answer that carries a value of the source.
    pub open spec fn carries_value(self) -> bool {
        self is Item || self is Failure
    }
}

impl<I, E> Outcome<I, E> {
    /// The shape of this answer.
    pub open spec fn kind(self) -> Kind {
        match self {
            Outcome::Item(_) => Kind::Item,
            Outcome::NotReady => Kind::NotReady,
            Outcome::Completed => Kind::Completed,
            Outcome::Failure(_) => Kind::Failure,
        }
    }

    /// Tells whether the answer carries a value of the source, an item or a
    /// failure.
    pub fn is_value(&self) -> (carries: bool)
        ensures
            carries == self.kind().carries_value(),
    {
        match self {
            Outcome::Item(_) => true,
            Outcome::Failure(_) => true,
            Outcome::NotReady => false,
            Outcome::Completed => false,
        }
    }
}

} // verus!
