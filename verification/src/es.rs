//! The event-sourcing capability interfaces.
//!
//! These traits describe what it means to be a source event over a state
//! and to be an event-sourced entity. The book domain keeps its event set
//! closed — a fixed enum and an exhaustive fold — so the library's own
//! logic goes through [`crate::book::BookEvent::apply`] directly; these
//! interfaces are for callers that source other entities.

use vstd::prelude::*;

verus! {

/// One event that can be folded into a state of type `T`.
pub trait SourceEvent<T> {
    /// Folds this event into `t`.
    fn apply(&self, t: &mut T);
}

/// An entity whose state is sourced from events of type `E`.
pub trait EventSourced<T, E: SourceEvent<T>> {
    /// Hands out the events this entity has recorded.
    fn get_events(self) -> Vec<E>;

    /// Folds one event into this entity.
    fn apply(&mut self, ev: E);
}

} // verus!
