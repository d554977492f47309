//! The plain records of the field's journal: ticks, state changes, links
//! and reflex firings.
use vstd::prelude::*;

verus! {

/// The field's clock moved to `now_ms`.
#[derive(Debug, Clone, Copy, PartialEq, Eq, Structural)]
pub struct TickDelta {
    pub now_ms: u64,
}

/// A cell fell asleep or died.
#[derive(Debug, Clone, Copy, PartialEq, Eq, Structural)]
pub struct StateDelta {
    pub id: u64,
}

/// A link between two cells was made or broken.
#[derive(Debug, Clone, Copy, PartialEq, Eq, Structural)]
pub struct LinkDelta {
    pub from: u64,
    pub to: u64,
}

/// A reflex fired at `at_ms` on `matched` hits.
#[derive(Debug, Clone, Copy, PartialEq, Eq, Structural)]
pub struct ReflexFire {
    pub id: u64,
    pub at_ms: u64,
    pub matched: u16,
}

} // verus!
