//! An event-projection engine: folds an ordered sequence of domain events
//! into entity state through a caller-supplied pure applier, and offers
//! several ways to consume the run of intermediate states.

pub mod encounter;
pub mod latest;
pub mod order;
pub mod projector;
