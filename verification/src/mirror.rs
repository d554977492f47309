//! The kinds of epochs the mirror records, and the status of the symmetry
//! loop.
use vstd::prelude::*;

verus! {

/// What an epoch was.
#[derive(Debug, Clone, Copy, PartialEq, Eq, Structural)]
pub enum EpochKind {
    Dream,
    Collective,
    Awaken,
}

pub open spec fn epoch_kind_name(k: EpochKind) -> Seq<char> {
    match k {
        EpochKind::Dream => "dream"@,
        EpochKind::Collective => "collective"@,
        EpochKind::Awaken => "awaken"@,
    }
}

impl EpochKind {
    pub fn as_str(&self) -> (s: &'static str)
        ensures
            s@ == epoch_kind_name(*self),
    {
        match self {
            EpochKind::Dream => "dream",
            EpochKind::Collective => "collective",
            EpochKind::Awaken => "awaken",
        }
    }
}

/// How the field's harmony stands.
#[derive(Debug, Clone, Copy, PartialEq, Eq, Structural)]
pub enum SymmetryStatus {
    Steady,
    Drift,
    Overload,
}

pub open spec fn symmetry_status_name(s: SymmetryStatus) -> Seq<char> {
    match s {
        SymmetryStatus::Steady => "ok"@,
        SymmetryStatus::Drift => "drift"@,
        SymmetryStatus::Overload => "overload"@,
    }
}

impl SymmetryStatus {
    pub fn as_str(&self) -> (s: &'static str)
        ensures
            s@ == symmetry_status_name(*self),
    {
        match self {
            SymmetryStatus::Steady => "ok",
            SymmetryStatus::Drift => "drift",
            SymmetryStatus::Overload => "overload",
        }
    }
}

impl Default for SymmetryStatus {
    fn default() -> (s: SymmetryStatus)
        ensures
            s == SymmetryStatus::Steady,
    {
        SymmetryStatus::Steady
    }
}

} // verus!
