//! Seed kinds and stages, and the outcome of committing to a variant.
use vstd::prelude::*;

verus! {

/// What a seed does once it blooms.
#[derive(Debug, Clone, Copy, PartialEq, Eq, Hash, Structural)]
pub enum SeedKind {
    BoostToken,
    CooldownToken,
    SpawnCluster,
    ViewWatch,
    PolicyBundle,
    Script,
}

/// The name of a seed kind.
pub open spec fn seed_kind_name(k: SeedKind) -> Seq<char> {
    match k {
        SeedKind::BoostToken => "BoostToken"@,
        SeedKind::CooldownToken => "CooldownToken"@,
        SeedKind::SpawnCluster => "SpawnCluster"@,
        SeedKind::ViewWatch => "ViewWatch"@,
        SeedKind::PolicyBundle => "PolicyBundle"@,
        SeedKind::Script => "Script"@,
    }
}

/// The kind a name stands for, if any.
pub open spec fn seed_kind_named(name: Seq<char>) -> Option<SeedKind> {
    if name == "BoostToken"@ {
        Some(SeedKind::BoostToken)
    } else if name == "CooldownToken"@ {
        Some(SeedKind::CooldownToken)
    } else if name == "SpawnCluster"@ {
        Some(SeedKind::SpawnCluster)
    } else if name == "ViewWatch"@ {
        Some(SeedKind::ViewWatch)
    } else if name == "PolicyBundle"@ {
        Some(SeedKind::PolicyBundle)
    } else if name == "Script"@ {
        Some(SeedKind::Script)
    } else {
        None
    }
}

impl SeedKind {
    pub fn as_str(&self) -> (s: &'static str)
        ensures
            s@ == seed_kind_name(*self),
    {
        match self {
            SeedKind::BoostToken => "BoostToken",
            SeedKind::CooldownToken => "CooldownToken",
            SeedKind::SpawnCluster => "SpawnCluster",
            SeedKind::ViewWatch => "ViewWatch",
            SeedKind::PolicyBundle => "PolicyBundle",
            SeedKind::Script => "Script",
        }
    }

    /// Reads a kind from its name; any other text is refused with
    /// `unknown seed kind: <text>`.
    pub fn parse(value: &str) -> (r: Result<SeedKind, String>)
        ensures
            match seed_kind_named(value@) {
                Some(k) => r == Ok::<SeedKind, String>(k),
                None => r matches Err(e) && e@ == "unknown seed kind: "@ + value@,
            },
    {
        if crate::text::str_eq(value, "BoostToken") {
            Ok(SeedKind::BoostToken)
        } else if crate::text::str_eq(value, "CooldownToken") {
            Ok(SeedKind::CooldownToken)
        } else if crate::text::str_eq(value, "SpawnCluster") {
            Ok(SeedKind::SpawnCluster)
        } else if crate::text::str_eq(value, "ViewWatch") {
            Ok(SeedKind::ViewWatch)
        } else if crate::text::str_eq(value, "PolicyBundle") {
            Ok(SeedKind::PolicyBundle)
        } else if crate::text::str_eq(value, "Script") {
            Ok(SeedKind::Script)
        } else {
            let mut e = "unknown seed kind: ".to_string();
            e.append(value);
            Err(e)
        }
    }
}

impl std::str::FromStr for SeedKind {
    type Err = String;

    fn from_str(value: &str) -> (r: Result<SeedKind, String>)
        ensures
            match seed_kind_named(value@) {
                Some(k) => r == Ok::<SeedKind, String>(k),
                None => r matches Err(e) && e@ == "unknown seed kind: "@ + value@,
            },
    {
        SeedKind::parse(value)
    }
}

/// Every kind is read back from its own name.
pub proof fn lemma_seed_kind_name_round_trip(k: SeedKind)
    ensures
        seed_kind_named(seed_kind_name(k)) == Some(k),
{
    reveal_strlit("BoostToken");
    reveal_strlit("CooldownToken");
    reveal_strlit("SpawnCluster");
    reveal_strlit("ViewWatch");
    reveal_strlit("PolicyBundle");
    reveal_strlit("Script");
    assert("PolicyBundle"@[0] != "SpawnCluster"@[0]);
    assert("BoostToken"@.len() == 10);
    assert("CooldownToken"@.len() == 13);
    assert("ViewWatch"@.len() == 9);
    assert("SpawnCluster"@.len() == 12);
    match k {
        SeedKind::BoostToken => assert(seed_kind_named("BoostToken"@) == Some(k)),
        SeedKind::CooldownToken => assert(seed_kind_named("CooldownToken"@) == Some(k)),
        SeedKind::SpawnCluster => assert(seed_kind_named("SpawnCluster"@) == Some(k)),
        SeedKind::ViewWatch => assert(seed_kind_named("ViewWatch"@) == Some(k)),
        SeedKind::PolicyBundle => assert(seed_kind_named("PolicyBundle"@) == Some(k)),
        SeedKind::Script => assert(seed_kind_named("Script"@) == Some(k)),
    }
}

/// Where a seed is in its life.
#[derive(Debug, Clone, Copy, PartialEq, Eq, Structural)]
pub enum SeedStage {
    Planted,
    Sprouting,
    Blooming,
    Harvested,
    Aborted,
}

pub open spec fn seed_stage_name(s: SeedStage) -> Seq<char> {
    match s {
        SeedStage::Planted => "Planted"@,
        SeedStage::Sprouting => "Sprouting"@,
        SeedStage::Blooming => "Blooming"@,
        SeedStage::Harvested => "Harvested"@,
        SeedStage::Aborted => "Aborted"@,
    }
}

impl SeedStage {
    pub fn as_str(&self) -> (s: &'static str)
        ensures
            s@ == seed_stage_name(*self),
    {
        match self {
            SeedStage::Planted => "Planted",
            SeedStage::Sprouting => "Sprouting",
            SeedStage::Blooming => "Blooming",
            SeedStage::Harvested => "Harvested",
            SeedStage::Aborted => "Aborted",
        }
    }
}


/// How long a seed planted at `ts_planted` has lived at `now`.
pub open spec fn spec_lifetime(ts_planted: u64, now: u64) -> u64 {
    if now >= ts_planted { (now - ts_planted) as u64 } else { 0 }
}

pub fn lifetime_ms(ts_planted: u64, now: u64) -> (r: u64)
    ensures
        r == spec_lifetime(ts_planted, now),
{
    now.saturating_sub(ts_planted)
}

/// What is left of a seed's time to live at `now`.
pub fn ttl_remaining(ts_planted: u64, ttl_ms: u32, now: u64) -> (r: u64)
    ensures
        r == if spec_lifetime(ts_planted, now) >= ttl_ms { 0 } else { (ttl_ms - spec_lifetime(ts_planted, now)) as u64 },
{
    let elapsed = lifetime_ms(ts_planted, now);
    let ttl = ttl_ms as u64;
    if elapsed >= ttl {
        0
    } else {
        ttl - elapsed
    }
}

/// The order of the growing stages.
pub open spec fn stage_rank(s: SeedStage) -> int {
    match s {
        SeedStage::Planted => 0,
        SeedStage::Sprouting => 1,
        SeedStage::Blooming => 2,
        SeedStage::Harvested => 3,
        SeedStage::Aborted => 3,
    }
}

/// The stage a growing seed reaches after `elapsed` ms: a planted seed
/// sprouts after 1 s, a sprouting one blooms after 10 s (both in one step
/// when the time allows). Harvested and aborted seeds stay.
pub open spec fn spec_grow(s: SeedStage, elapsed: u64) -> SeedStage {
    let s1 = if s == SeedStage::Planted && elapsed >= 1_000 { SeedStage::Sprouting } else { s };
    if s1 == SeedStage::Sprouting && elapsed >= 10_000 {
        SeedStage::Blooming
    } else {
        s1
    }
}

pub fn grow_stage(s: SeedStage, elapsed: u64) -> (r: SeedStage)
    ensures
        r == spec_grow(s, elapsed),
{
    let s1 = if s == SeedStage::Planted && elapsed >= 1_000 { SeedStage::Sprouting } else { s };
    if s1 == SeedStage::Sprouting && elapsed >= 10_000 {
        SeedStage::Blooming
    } else {
        s1
    }
}

/// A seed's stage never moves back, and a longer life never leaves it at an
/// earlier stage.
pub proof fn lemma_growth_is_monotone(s: SeedStage, e1: u64, e2: u64)
    requires
        e1 <= e2,
    ensures
        stage_rank(spec_grow(s, e1)) >= stage_rank(s),
        stage_rank(spec_grow(s, e2)) >= stage_rank(spec_grow(s, e1)),
{
}

/// A seed's life is the time since it was planted, none before that.
pub proof fn lemma_lifetime_measures(ts_planted: u64, now: u64)
    ensures
        now >= ts_planted ==> ts_planted + spec_lifetime(ts_planted, now) == now,
        now < ts_planted ==> spec_lifetime(ts_planted, now) == 0,
{
}

/// Growing by elapsed time: a planted seed stays planted under 1 s,
/// sprouts from 1 s, and blooms from 10 s; a sprouting seed blooms from
/// 10 s and sprouts until then; blooming, harvested and aborted seeds stay.
pub proof fn lemma_growth_thresholds(s: SeedStage, elapsed: u64)
    ensures
        s == SeedStage::Planted && elapsed < 1000 ==> spec_grow(s, elapsed) == SeedStage::Planted,
        s == SeedStage::Planted && 1000 <= elapsed < 10_000 ==> spec_grow(s, elapsed) == SeedStage::Sprouting,
        (s == SeedStage::Planted || s == SeedStage::Sprouting) && elapsed >= 10_000 ==> spec_grow(s, elapsed)
            == SeedStage::Blooming,
        s == SeedStage::Sprouting && elapsed < 10_000 ==> spec_grow(s, elapsed) == SeedStage::Sprouting,
        (s == SeedStage::Blooming || s == SeedStage::Harvested || s == SeedStage::Aborted) ==> spec_grow(s, elapsed)
            == s,
{
}

/// The id a planted seed gets, and the garden's next id after it: a seed
/// without an id (0) takes the next id; the next id then lies past every
/// id handed out.
pub fn plant_id(next_id: u64, requested: u64) -> (r: (u64, u64))
    ensures
        r.0 == if requested == 0 { next_id } else { requested },
        r.1 == if next_id >= (if r.0 == u64::MAX { u64::MAX } else { (r.0 + 1) as u64 }) { next_id } else { if r.0 == u64::MAX { u64::MAX } else { (r.0 + 1) as u64 } },
{
    let id = if requested == 0 { next_id } else { requested };
    let after = id.saturating_add(1);
    let next = if next_id >= after { next_id } else { after };
    (id, next)
}

/// What committing to a variant did: the variant, and the seeds it planted.
#[derive(Debug, Clone)]
pub struct CommitOutcome {
    pub variant_id: String,
    pub planted_seeds: Vec<u64>,
}

} // verus!
