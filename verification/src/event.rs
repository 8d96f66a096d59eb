//! What the sorting side sends to the resolving side.

use crate::ordpaths::{Key, OrdPaths};
use vstd::prelude::*;

verus! {

/// A request of the sorter.
#[derive(Debug)]
pub enum Event {
    /// How does the first group compare to the second?
    Compare(OrdPaths, OrdPaths),
    /// No fresh pair is left: what is asked from now on is in the cache.
    Finished,
}

/// A request in contracts: the groups by their members.
pub enum EventView {
    Compare(Seq<Key>, Seq<Key>),
    Finished,
}

impl View for Event {
    type V = EventView;

    open spec fn view(&self) -> EventView {
        match self {
            Event::Compare(a, b) => EventView::Compare(a@, b@),
            Event::Finished => EventView::Finished,
        }
    }
}

impl Event {
    /// Whether the groups of the request both have a canonical key.
    pub open spec fn wf(&self) -> bool {
        match self {
            Event::Compare(a, b) => a.wf() && b.wf(),
            Event::Finished => true,
        }
    }

    /// Whether this is the request that ends a phase.
    pub fn is_finished(&self) -> (b: bool)
        ensures
            b == (self@ == EventView::Finished),
    {
        match self {
            Event::Compare(_, _) => false,
            Event::Finished => true,
        }
    }
}

} // verus!
