//! Reading a spoken command ("boost cpu", "dream now", "set target 0.7")
//! as an intent.
use vstd::prelude::*;
use regex::Regex;

use crate::text::{chars_of, string_of, trim, trim_chars};

verus! {

/// What an intent asks for.
#[derive(Debug, Clone, Copy, PartialEq, Eq, Structural)]
pub enum IntentKind {
    Boost,
    Deprioritize,
    Snapshot,
    DreamNow,
    SyncNow,
    AwakenNow,
    SetTarget,
    Query,
    Explain,
    Ask,
}

/// Why a text is no intent.
#[derive(Debug, Clone, Copy, PartialEq, Eq, Structural)]
pub enum NluError {
    Unrecognized,
}

impl NluError {
    pub fn message(&self) -> (s: &'static str)
        ensures
            s@ == "unrecognized intent"@,
    {
        "unrecognized intent"
    }
}

pub const BOOST_PATTERN: &'static str = "^(?i)(boost|усиль)\\s+(?P<token>.+)$";
pub const DEPRIORITIZE_PATTERN: &'static str = "^(?i)(deprioritize|понизь)\\s+(?P<token>.+)$";
pub const SNAPSHOT_PATTERN: &'static str = "^(?i)(snapshot|снимок)\\s+(?P<token>.+)$";
pub const SET_TARGET_PATTERN: &'static str = "^(?i)(set\\s+target|установи\\s+цель)\\s+(?P<value>0\\.[0-9]+|1\\.0)$";
pub const EXPLAIN_PATTERN: &'static str = "^(?i)(explain|объясни)\\s+(?P<token>.+)$";
pub const DREAM_NOW_PATTERN: &'static str = "^(?i)(dream\\s+now|сон\\s+сейчас)$";
pub const SYNC_NOW_PATTERN: &'static str = "^(?i)(sync\\s+now|синхронизируй\\s+сейчас)$";
pub const AWAKEN_NOW_PATTERN: &'static str = "^(?i)(awaken\\s+now|пробуди\\s+сейчас)$";
pub const HOW_ARE_YOU_PATTERN: &'static str = "^(?i)(how\\s+are\\s+you\\??|как\\s+ты\\??)$";

/// Whether the regex compiled from `pattern` matches somewhere in `text`
/// (`Regex::is_match`); false where `pattern` does not compile.
pub uninterp spec fn regex_is_match(pattern: Seq<char>, text: Seq<char>) -> bool;

/// The text of the group named `group` in the first match of the regex
/// compiled from `pattern` on `text` (`Regex::captures`, then
/// `Captures::name`); none where there is no match, no such group in it, or
/// `pattern` does not compile.
pub uninterp spec fn regex_named_group(pattern: Seq<char>, text: Seq<char>, group: Seq<char>) -> Option<
    Seq<char>,
>;

/// Compiles `pattern` with `Regex::new` and asks `Regex::is_match` of
/// `text`. Claims only that the answer is `regex_is_match` of the two.
#[verifier::external_body]
fn pattern_matches(pattern: &str, text: &str) -> (b: bool)
    ensures
        b == regex_is_match(pattern@, text@),
{
    match Regex::new(pattern) {
        Ok(re) => re.is_match(text),
        Err(_) => false,
    }
}

/// Compiles `pattern` with `Regex::new`, takes `Regex::captures` of `text`
/// and the group named `group` of them. Claims only that the text is
/// `regex_named_group` of the three.
#[verifier::external_body]
fn pattern_group(pattern: &str, text: &str, group: &str) -> (g: Option<String>)
    ensures
        match g {
            Some(s) => regex_named_group(pattern@, text@, group@) == Some(s@),
            None => regex_named_group(pattern@, text@, group@) is None,
        },
{
    let re = match Regex::new(pattern) {
        Ok(re) => re,
        Err(_) => return None,
    };
    match re.captures(text) {
        Some(caps) => match caps.name(group) {
            Some(m) => Some(m.as_str().to_string()),
            None => None,
        },
        None => None,
    }
}

/// What each command pattern says of a text: the captured token or value
/// where it has one, whether it matched where it has none.
pub struct IntentProbe {
    pub boost: Option<String>,
    pub deprioritize: Option<String>,
    pub snapshot: Option<String>,
    pub dream_now: bool,
    pub sync_now: bool,
    pub awaken_now: bool,
    pub set_target: Option<String>,
    pub explain: Option<String>,
    pub ask: bool,
}

/// An intent read from text. For `SetTarget` the target is the load as it
/// was written (`0.7`, `1.0`).
pub struct IntentMatch {
    pub kind: IntentKind,
    pub target: String,
}

pub open spec fn opt_view(o: Option<String>) -> Option<Seq<char>> {
    match o {
        Some(s) => Some(s@),
        None => None,
    }
}

/// The intent a probe gives: the first pattern in the order boost,
/// deprioritize, snapshot, dream now, sync now, awaken now, set target,
/// explain, how-are-you that matched. Tokens are trimmed.
pub open spec fn spec_decide(
    boost: Option<Seq<char>>,
    deprioritize: Option<Seq<char>>,
    snapshot: Option<Seq<char>>,
    dream_now: bool,
    sync_now: bool,
    awaken_now: bool,
    set_target: Option<Seq<char>>,
    explain: Option<Seq<char>>,
    ask: bool,
) -> Result<(IntentKind, Seq<char>), NluError> {
    if boost is Some {
        Ok((IntentKind::Boost, trim(boost->0)))
    } else if deprioritize is Some {
        Ok((IntentKind::Deprioritize, trim(deprioritize->0)))
    } else if snapshot is Some {
        Ok((IntentKind::Snapshot, trim(snapshot->0)))
    } else if dream_now {
        Ok((IntentKind::DreamNow, Seq::empty()))
    } else if sync_now {
        Ok((IntentKind::SyncNow, Seq::empty()))
    } else if awaken_now {
        Ok((IntentKind::AwakenNow, Seq::empty()))
    } else if set_target is Some {
        Ok((IntentKind::SetTarget, set_target->0))
    } else if explain is Some {
        Ok((IntentKind::Explain, trim(explain->0)))
    } else if ask {
        Ok((IntentKind::Ask, Seq::empty()))
    } else {
        Err(NluError::Unrecognized)
    }
}

impl IntentProbe {
    pub open spec fn decision(&self) -> Result<(IntentKind, Seq<char>), NluError> {
        spec_decide(
            opt_view(self.boost),
            opt_view(self.deprioritize),
            opt_view(self.snapshot),
            self.dream_now,
            self.sync_now,
            self.awaken_now,
            opt_view(self.set_target),
            opt_view(self.explain),
            self.ask,
        )
    }
}

pub open spec fn match_view(r: Result<IntentMatch, NluError>) -> Result<(IntentKind, Seq<char>), NluError> {
    match r {
        Ok(m) => Ok((m.kind, m.target@)),
        Err(e) => Err(e),
    }
}

fn trimmed(s: &String) -> (r: String)
    ensures
        r@ == trim(s@),
{
    let v = trim_chars(chars_of(s.as_str()).as_slice());
    string_of(v.as_slice())
}

/// The kind a decision gives, when it gives one.
pub open spec fn decided_kind(r: Result<(IntentKind, Seq<char>), NluError>) -> Option<IntentKind> {
    match r {
        Ok((k, _)) => Some(k),
        Err(_) => None,
    }
}

/// The first pattern that matched decides, in the order boost,
/// deprioritize, snapshot, dream now, sync now, awaken now, set target,
/// explain, how-are-you: each kind comes only when its pattern matched and
/// none before it did, with the trimmed token (the target's value as
/// written, nothing for the plain commands); nothing matching is
/// unrecognized.
pub proof fn lemma_decide_first_match(
    boost: Option<Seq<char>>,
    deprioritize: Option<Seq<char>>,
    snapshot: Option<Seq<char>>,
    dream_now: bool,
    sync_now: bool,
    awaken_now: bool,
    set_target: Option<Seq<char>>,
    explain: Option<Seq<char>>,
    ask: bool,
)
    ensures
        ({
            let r = spec_decide(boost, deprioritize, snapshot, dream_now, sync_now, awaken_now, set_target, explain, ask);
            let k = decided_kind(r);
            let before_dream = boost is None && deprioritize is None && snapshot is None;
            let before_target = before_dream && !dream_now && !sync_now && !awaken_now;
            &&& (k == Some(IntentKind::Boost)) <==> boost is Some
            &&& (k == Some(IntentKind::Deprioritize)) <==> (boost is None && deprioritize is Some)
            &&& (k == Some(IntentKind::Snapshot)) <==> (boost is None && deprioritize is None && snapshot is Some)
            &&& (k == Some(IntentKind::DreamNow)) <==> (before_dream && dream_now)
            &&& (k == Some(IntentKind::SyncNow)) <==> (before_dream && !dream_now && sync_now)
            &&& (k == Some(IntentKind::AwakenNow)) <==> (before_dream && !dream_now && !sync_now && awaken_now)
            &&& (k == Some(IntentKind::SetTarget)) <==> (before_target && set_target is Some)
            &&& (k == Some(IntentKind::Explain)) <==> (before_target && set_target is None && explain is Some)
            &&& (k == Some(IntentKind::Ask)) <==> (before_target && set_target is None && explain is None && ask)
            &&& k != Some(IntentKind::Query)
            &&& (r is Err) <==> (before_target && set_target is None && explain is None && !ask)
            &&& boost is Some ==> r == Ok::<(IntentKind, Seq<char>), NluError>((IntentKind::Boost, trim(boost->0)))
            &&& (k == Some(IntentKind::Deprioritize)) ==> r->Ok_0.1 == trim(deprioritize->0)
            &&& (k == Some(IntentKind::Snapshot)) ==> r->Ok_0.1 == trim(snapshot->0)
            &&& (k == Some(IntentKind::SetTarget)) ==> r->Ok_0.1 == set_target->0
            &&& (k == Some(IntentKind::Explain)) ==> r->Ok_0.1 == trim(explain->0)
            &&& (k == Some(IntentKind::DreamNow) || k == Some(IntentKind::SyncNow) || k == Some(IntentKind::AwakenNow)
                || k == Some(IntentKind::Ask)) ==> r->Ok_0.1 == Seq::<char>::empty()
        }),
{
}

/// Picks the intent that a probe shows.
pub fn decide_intent(probe: &IntentProbe) -> (r: Result<IntentMatch, NluError>)
    ensures
        match_view(r) == probe.decision(),
{
    if let Some(t) = &probe.boost {
        return Ok(IntentMatch { kind: IntentKind::Boost, target: trimmed(t) });
    }
    if let Some(t) = &probe.deprioritize {
        return Ok(IntentMatch { kind: IntentKind::Deprioritize, target: trimmed(t) });
    }
    if let Some(t) = &probe.snapshot {
        return Ok(IntentMatch { kind: IntentKind::Snapshot, target: trimmed(t) });
    }
    if probe.dream_now {
        return Ok(IntentMatch { kind: IntentKind::DreamNow, target: String::new() });
    }
    if probe.sync_now {
        return Ok(IntentMatch { kind: IntentKind::SyncNow, target: String::new() });
    }
    if probe.awaken_now {
        return Ok(IntentMatch { kind: IntentKind::AwakenNow, target: String::new() });
    }
    if let Some(v) = &probe.set_target {
        return Ok(IntentMatch { kind: IntentKind::SetTarget, target: v.clone() });
    }
    if let Some(t) = &probe.explain {
        return Ok(IntentMatch { kind: IntentKind::Explain, target: trimmed(t) });
    }
    if probe.ask {
        return Ok(IntentMatch { kind: IntentKind::Ask, target: String::new() });
    }
    Err(NluError::Unrecognized)
}

/// The intent that the command patterns give for a trimmed text.
pub open spec fn spec_intent_of(t: Seq<char>) -> Result<(IntentKind, Seq<char>), NluError> {
    spec_decide(
        regex_named_group(BOOST_PATTERN@, t, "token"@),
        regex_named_group(DEPRIORITIZE_PATTERN@, t, "token"@),
        regex_named_group(SNAPSHOT_PATTERN@, t, "token"@),
        regex_is_match(DREAM_NOW_PATTERN@, t),
        regex_is_match(SYNC_NOW_PATTERN@, t),
        regex_is_match(AWAKEN_NOW_PATTERN@, t),
        regex_named_group(SET_TARGET_PATTERN@, t, "value"@),
        regex_named_group(EXPLAIN_PATTERN@, t, "token"@),
        regex_is_match(HOW_ARE_YOU_PATTERN@, t),
    )
}

/// Asks every command pattern about `text`.
pub fn probe_intent(text: &str) -> (p: IntentProbe)
    ensures
        p.decision() == spec_intent_of(text@),
{
    IntentProbe {
        boost: pattern_group(BOOST_PATTERN, text, "token"),
        deprioritize: pattern_group(DEPRIORITIZE_PATTERN, text, "token"),
        snapshot: pattern_group(SNAPSHOT_PATTERN, text, "token"),
        dream_now: pattern_matches(DREAM_NOW_PATTERN, text),
        sync_now: pattern_matches(SYNC_NOW_PATTERN, text),
        awaken_now: pattern_matches(AWAKEN_NOW_PATTERN, text),
        set_target: pattern_group(SET_TARGET_PATTERN, text, "value"),
        explain: pattern_group(EXPLAIN_PATTERN, text, "token"),
        ask: pattern_matches(HOW_ARE_YOU_PATTERN, text),
    }
}

/// Reads `text` as an intent: blank text is refused, anything else is
/// read, trimmed, by the command patterns.
pub fn classify_intent(text: &str) -> (r: Result<IntentMatch, NluError>)
    ensures
        trim(text@).len() == 0 ==> r == Err::<IntentMatch, NluError>(NluError::Unrecognized),
        trim(text@).len() > 0 ==> match_view(r) == spec_intent_of(trim(text@)),
{
    let v = trim_chars(chars_of(text).as_slice());
    if v.len() == 0 {
        return Err(NluError::Unrecognized);
    }
    let t = string_of(v.as_slice());
    let probe = probe_intent(t.as_str());
    decide_intent(&probe)
}

} // verus!
