//! Weighted merging of several item sources into one.
//!
//! A chain of sources is built with [`new`] and [`IncompleteSelect::append`],
//! each source with a positive weight, and closed with
//! [`IncompleteSelect::build`]. The resulting [`Select`] hands out, lap after
//! lap, up to `weight` items of each source in the order in which the sources
//! were appended. A source that has nothing to give leaves its turn to the
//! next one.
//!
//! Nothing here blocks, spawns or locks: [`Select::poll`] asks the sources it
//! needs to ask and returns their answer as an [`Outcome`].
//!
//! The rule that a poll follows is written down once, over plain values, in
//! [`walk`]; the chain in [`chain`] and the merged source in [`select`] carry
//! it out. What follows from the rule for whole runs is proved in [`script`]
//! (each source's values come out in its own order) and in [`ready`]
//! (sources that are always ready are served in weighted round robin, as
//! [`round_robin`] defines it).

pub mod outcome;
pub mod source;
pub mod walk;
pub mod script;
pub mod round_robin;
pub mod ready;
pub mod chain;
pub mod select;

pub use crate::chain::new;
pub use crate::chain::IncompleteSelect;
pub use crate::chain::SelectPart;
pub use crate::outcome::Kind;
pub use crate::outcome::Outcome;
pub use crate::select::Select;
pub use crate::source::Fused;
pub use crate::source::Source;
