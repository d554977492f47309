//! Kinds shared across the field: impulse kinds, cell states and control
//! hints.
use vstd::prelude::*;

verus! {

/// What an impulse asks of the field.
#[derive(Debug, Clone, Copy, PartialEq, Eq, Hash, Structural)]
pub enum ImpulseKind {
    Query,
    Write,
    Affect,
}

/// The life state of a cell.
#[derive(Debug, Clone, Copy, PartialEq, Eq, Structural)]
pub enum NodeState {
    Active,
    Idle,
    Sleep,
    Dead,
}

/// A control hint from the field to its driver.
#[derive(Debug, Clone, Copy, PartialEq, Eq, Structural)]
pub enum Hint {
    SlowTick,
    FastTick,
    TrimField,
    WakeSeeds,
}

/// The kind an impulse code on the wire stands for: 0 affect, 1 query,
/// 2 write, anything else query.
pub open spec fn spec_kind_of_code(code: u8) -> ImpulseKind {
    if code == 0 {
        ImpulseKind::Affect
    } else if code == 2 {
        ImpulseKind::Write
    } else {
        ImpulseKind::Query
    }
}

/// Reads a wire impulse code.
pub fn impulse_kind_from_code(code: u8) -> (k: ImpulseKind)
    ensures
        k == spec_kind_of_code(code),
        (k == ImpulseKind::Affect) <==> code == 0,
        (k == ImpulseKind::Write) <==> code == 2,
        (k == ImpulseKind::Query) <==> (code != 0 && code != 2),
{
    match code {
        0 => ImpulseKind::Affect,
        1 => ImpulseKind::Query,
        2 => ImpulseKind::Write,
        _ => ImpulseKind::Query,
    }
}

} // verus!
