//! A minimal consumer of the projection core: an entity that remembers the
//! first identifier it was given and the latest timestamp seen so far, in
//! lexicographic order.

use crate::order::{lex_le, str_lex_le};
use crate::projector::{applier_abides, applier_callable};
use vstd::prelude::*;

verus! {

/// The projected entity: the first id seen and the latest timestamp.
#[derive(Debug, PartialEq, Eq, Hash)]
pub struct LatestState {
    pub id: Option<String>,
    pub timestamp: Option<String>,
}

/// One occurrence in the log: who and when.
pub struct StampedEvent {
    pub id: String,
    pub timestamp: String,
}

/// The mathematical value of a `LatestState`.
pub struct LatestStateView {
    pub id: Option<Seq<char>>,
    pub timestamp: Option<Seq<char>>,
}

impl View for LatestState {
    type V = LatestStateView;

    open spec fn view(&self) -> LatestStateView {
        LatestStateView {
            id: match self.id {
                Some(s) => Some(s@),
                None => None,
            },
            timestamp: match self.timestamp {
                Some(s) => Some(s@),
                None => None,
            },
        }
    }
}

impl Default for LatestState {
    /// The zero state: nothing seen yet.
    fn default() -> (r: Self)
        ensures
            r@ == (LatestStateView { id: None, timestamp: None }),
    {
        LatestState { id: None, timestamp: None }
    }
}

impl Clone for LatestState {
    /// A clone has the same value.
    fn clone(&self) -> (r: Self)
        ensures
            r@ == (*self)@,
    {
        LatestState { id: self.id.clone(), timestamp: self.timestamp.clone() }
    }
}

/// How one event reshapes the state: the id is kept once set, the
/// timestamp moves forward to the later of the two.
pub open spec fn spec_apply_stamped(s: LatestStateView, e: StampedEvent) -> LatestStateView {
    LatestStateView {
        id: match s.id {
            Some(i) => Some(i),
            None => Some(e.id@),
        },
        timestamp: match s.timestamp {
            Some(t) => Some(
                if lex_le(t, e.timestamp@) {
                    e.timestamp@
                } else {
                    t
                },
            ),
            None => Some(e.timestamp@),
        },
    }
}

/// The applier model the latest-timestamp applier refines.
pub open spec fn latest_model() -> spec_fn(LatestStateView, StampedEvent) -> LatestStateView {
    |s: LatestStateView, e: StampedEvent| spec_apply_stamped(s, e)
}

/// Applies one event to the state.
fn apply_stamped(state: &LatestState, event: &StampedEvent) -> (r: LatestState)
    ensures
        r@ == spec_apply_stamped((*state)@, *event),
{
    let id: Option<String> = match &state.id {
        Some(i) => Some(i.clone()),
        None => Some(event.id.clone()),
    };
    let timestamp: Option<String> = match &state.timestamp {
        Some(t) => Some(
            if str_lex_le(t.as_str(), event.timestamp.as_str()) {
                event.timestamp.clone()
            } else {
                t.clone()
            },
        ),
        None => Some(event.timestamp.clone()),
    };
    LatestState { id, timestamp }
}

/// An applier tracking the first id and the latest timestamp, refining
/// `latest_model`.
pub fn latest_applier() -> (r: impl Fn(&LatestState, &StampedEvent) -> LatestState)
    ensures
        applier_callable(r),
        applier_abides(r, latest_model()),
{
    |state: &LatestState, event: &StampedEvent| -> (out: LatestState)
        ensures
            out@ == spec_apply_stamped((*state)@, *event),
        {
            apply_stamped(state, event)
        }
}

} // verus!


