//! What a command object received on the stream socket asks for.
use vstd::prelude::*;
use crate::protocol::{parse_introspect_target, spec_introspect_target, IntrospectTarget};
use crate::text::{chars_of, str_eq, string_of};

verus! {

/// The parts of a received command object that decide what it asks for,
/// each present when the object holds it with the expected JSON type:
/// `cmd`, `q`, `pattern` and `target` as strings, `top` as an unsigned
/// integer.
pub struct CommandFields {
    pub cmd: Option<String>,
    pub q: Option<String>,
    pub pattern: Option<String>,
    pub target: Option<String>,
    pub top: Option<u64>,
}

/// What a command object asks for. Where the request carries a JSON value
/// (`data` or `cfg`), the caller attaches it.
#[derive(Debug, Clone, PartialEq)]
pub enum WsCommand {
    Impulse,
    Lql { query: String },
    PolicySet,
    DreamNow,
    DreamSet,
    DreamGet,
    SyncNow,
    SyncSet,
    SyncGet,
    AwakenSet,
    AwakenGet,
    Introspect { target: IntrospectTarget, top: Option<u32> },
    /// Passed on whole: no `cmd` string, or one that is not known.
    Raw,
    /// Dropped: a query without `q`, a subscription without `pattern`, or
    /// an introspection without a known target.
    Dropped,
}

pub enum WsCommandView {
    Impulse,
    Lql { query: Seq<char> },
    PolicySet,
    DreamNow,
    DreamSet,
    DreamGet,
    SyncNow,
    SyncSet,
    SyncGet,
    AwakenSet,
    AwakenGet,
    Introspect { target: IntrospectTarget, top: Option<u32> },
    Raw,
    Dropped,
}

impl View for WsCommand {
    type V = WsCommandView;

    open spec fn view(&self) -> WsCommandView {
        match self {
            WsCommand::Impulse => WsCommandView::Impulse,
            WsCommand::Lql { query } => WsCommandView::Lql { query: query@ },
            WsCommand::PolicySet => WsCommandView::PolicySet,
            WsCommand::DreamNow => WsCommandView::DreamNow,
            WsCommand::DreamSet => WsCommandView::DreamSet,
            WsCommand::DreamGet => WsCommandView::DreamGet,
            WsCommand::SyncNow => WsCommandView::SyncNow,
            WsCommand::SyncSet => WsCommandView::SyncSet,
            WsCommand::SyncGet => WsCommandView::SyncGet,
            WsCommand::AwakenSet => WsCommandView::AwakenSet,
            WsCommand::AwakenGet => WsCommandView::AwakenGet,
            WsCommand::Introspect { target, top } => WsCommandView::Introspect { target: *target, top: *top },
            WsCommand::Raw => WsCommandView::Raw,
            WsCommand::Dropped => WsCommandView::Dropped,
        }
    }
}

pub open spec fn opt_chars(o: Option<String>) -> Option<Seq<char>> {
    match o {
        Some(s) => Some(s@),
        None => None,
    }
}

/// A `top` limit as a `u32`, the largest one standing for any larger.
pub open spec fn clamp_top(top: Option<u64>) -> Option<u32> {
    match top {
        Some(v) => Some(if v < u32::MAX { v as u32 } else { u32::MAX }),
        None => None,
    }
}

/// What a command object with these parts asks for.
pub open spec fn spec_ws_command(
    cmd: Option<Seq<char>>,
    q: Option<Seq<char>>,
    pattern: Option<Seq<char>>,
    target: Option<Seq<char>>,
    top: Option<u64>,
) -> WsCommandView {
    match cmd {
        None => WsCommandView::Raw,
        Some(c) => if c == "impulse"@ {
            WsCommandView::Impulse
        } else if c == "lql"@ {
            match q {
                Some(q) => WsCommandView::Lql { query: q },
                None => WsCommandView::Dropped,
            }
        } else if c == "policy.set"@ {
            WsCommandView::PolicySet
        } else if c == "subscribe"@ {
            match pattern {
                Some(p) => WsCommandView::Lql { query: "SUBSCRIBE "@ + p },
                None => WsCommandView::Dropped,
            }
        } else if c == "dream.now"@ {
            WsCommandView::DreamNow
        } else if c == "dream.set"@ {
            WsCommandView::DreamSet
        } else if c == "dream.get"@ {
            WsCommandView::DreamGet
        } else if c == "sync.now"@ {
            WsCommandView::SyncNow
        } else if c == "sync.set"@ {
            WsCommandView::SyncSet
        } else if c == "sync.get"@ {
            WsCommandView::SyncGet
        } else if c == "awaken.set"@ {
            WsCommandView::AwakenSet
        } else if c == "awaken.get"@ {
            WsCommandView::AwakenGet
        } else if c == "awaken.now"@ {
            WsCommandView::Introspect { target: IntrospectTarget::Awaken, top: None }
        } else if c == "introspect"@ {
            match target {
                Some(t) => match spec_introspect_target(t) {
                    Some(tg) => WsCommandView::Introspect { target: tg, top: clamp_top(top) },
                    None => WsCommandView::Dropped,
                },
                None => WsCommandView::Dropped,
            }
        } else {
            WsCommandView::Raw
        }
    }
}

/// The query that subscribes to `pattern`.
fn subscribe_query(pattern: &str) -> (q: String)
    ensures
        q@ == "SUBSCRIBE "@ + pattern@,
{
    let mut v = chars_of("SUBSCRIBE ");
    let mut rest = chars_of(pattern);
    v.append(&mut rest);
    string_of(v.as_slice())
}

/// Reads what a received command object asks for.
pub fn decode_ws_command(f: &CommandFields) -> (c: WsCommand)
    ensures
        c@ == spec_ws_command(opt_chars(f.cmd), opt_chars(f.q), opt_chars(f.pattern), opt_chars(f.target), f.top),
{
    let cmd = match &f.cmd {
        Some(c) => c.as_str(),
        None => {
            return WsCommand::Raw;
        },
    };
    if str_eq(cmd, "impulse") {
        WsCommand::Impulse
    } else if str_eq(cmd, "lql") {
        match &f.q {
            Some(q) => WsCommand::Lql { query: q.clone() },
            None => WsCommand::Dropped,
        }
    } else if str_eq(cmd, "policy.set") {
        WsCommand::PolicySet
    } else if str_eq(cmd, "subscribe") {
        match &f.pattern {
            Some(p) => WsCommand::Lql { query: subscribe_query(p.as_str()) },
            None => WsCommand::Dropped,
        }
    } else if str_eq(cmd, "dream.now") {
        WsCommand::DreamNow
    } else if str_eq(cmd, "dream.set") {
        WsCommand::DreamSet
    } else if str_eq(cmd, "dream.get") {
        WsCommand::DreamGet
    } else if str_eq(cmd, "sync.now") {
        WsCommand::SyncNow
    } else if str_eq(cmd, "sync.set") {
        WsCommand::SyncSet
    } else if str_eq(cmd, "sync.get") {
        WsCommand::SyncGet
    } else if str_eq(cmd, "awaken.set") {
        WsCommand::AwakenSet
    } else if str_eq(cmd, "awaken.get") {
        WsCommand::AwakenGet
    } else if str_eq(cmd, "awaken.now") {
        WsCommand::Introspect { target: IntrospectTarget::Awaken, top: None }
    } else if str_eq(cmd, "introspect") {
        match &f.target {
            Some(t) => match parse_introspect_target(t.as_str()) {
                Some(target) => {
                    let top = match f.top {
                        Some(v) => Some(
                            if v < 4294967295u64 {
                                v as u32
                            } else {
                                4294967295u32
                            },
                        ),
                        None => None,
                    };
                    WsCommand::Introspect { target, top }
                },
                None => WsCommand::Dropped,
            },
            None => WsCommand::Dropped,
        }
    } else {
        WsCommand::Raw
    }
}


proof fn lemma_command_literals()
    ensures
        "impulse"@.len() == 7,
        "lql"@.len() == 3,
        "policy.set"@.len() == 10 && "policy.set"@[0] == 'p',
        "subscribe"@.len() == 9 && "subscribe"@[0] == 's',
        "dream.now"@.len() == 9 && "dream.now"@[0] == 'd' && "dream.now"@[6] == 'n',
        "dream.set"@.len() == 9 && "dream.set"@[0] == 'd' && "dream.set"@[6] == 's',
        "dream.get"@.len() == 9 && "dream.get"@[0] == 'd' && "dream.get"@[6] == 'g',
        "sync.now"@.len() == 8 && "sync.now"@[5] == 'n',
        "sync.set"@.len() == 8 && "sync.set"@[5] == 's',
        "sync.get"@.len() == 8 && "sync.get"@[5] == 'g',
        "awaken.set"@.len() == 10 && "awaken.set"@[0] == 'a' && "awaken.set"@[7] == 's',
        "awaken.get"@.len() == 10 && "awaken.get"@[0] == 'a' && "awaken.get"@[7] == 'g',
        "awaken.now"@.len() == 10 && "awaken.now"@[0] == 'a' && "awaken.now"@[7] == 'n',
        "introspect"@.len() == 10 && "introspect"@[0] == 'i',
{
    reveal_strlit("impulse");
    reveal_strlit("lql");
    reveal_strlit("policy.set");
    reveal_strlit("subscribe");
    reveal_strlit("dream.now");
    reveal_strlit("dream.set");
    reveal_strlit("dream.get");
    reveal_strlit("sync.now");
    reveal_strlit("sync.set");
    reveal_strlit("sync.get");
    reveal_strlit("awaken.set");
    reveal_strlit("awaken.get");
    reveal_strlit("awaken.now");
    reveal_strlit("introspect");
}

/// Each `cmd` word asks for its own thing: `impulse`, `policy.set`,
/// `dream.now`, `dream.set`, `dream.get`, `sync.now`, `sync.set`,
/// `sync.get`, `awaken.set` and `awaken.get` for the request of that name;
/// `lql` with `q` for that query and `subscribe` with `pattern` for the
/// query that subscribes to it; `awaken.now` for an awakening
/// introspection, `introspect` with a known `target` for that target with
/// `top` (at most `u32::MAX`). No `cmd` passes the object on whole.
pub proof fn lemma_command_object_kinds(
    cmd: Option<Seq<char>>,
    q: Option<Seq<char>>,
    pattern: Option<Seq<char>>,
    target: Option<Seq<char>>,
    top: Option<u64>,
)
    ensures
        ({
            let r = spec_ws_command(cmd, q, pattern, target, top);
            &&& cmd is None ==> r is Raw
            &&& (r is Impulse) <==> cmd == Some("impulse"@)
            &&& (r is PolicySet) <==> cmd == Some("policy.set"@)
            &&& (r is DreamNow) <==> cmd == Some("dream.now"@)
            &&& (r is DreamSet) <==> cmd == Some("dream.set"@)
            &&& (r is DreamGet) <==> cmd == Some("dream.get"@)
            &&& (r is SyncNow) <==> cmd == Some("sync.now"@)
            &&& (r is SyncSet) <==> cmd == Some("sync.set"@)
            &&& (r is SyncGet) <==> cmd == Some("sync.get"@)
            &&& (r is AwakenSet) <==> cmd == Some("awaken.set"@)
            &&& (r is AwakenGet) <==> cmd == Some("awaken.get"@)
            &&& (cmd == Some("lql"@) && q is Some) ==> r == WsCommandView::Lql { query: q->0 }
            &&& (cmd == Some("subscribe"@) && pattern is Some) ==> r == WsCommandView::Lql {
                query: "SUBSCRIBE "@ + pattern->0,
            }
            &&& (r is Lql) ==> (cmd == Some("lql"@) || cmd == Some("subscribe"@))
            &&& cmd == Some("awaken.now"@) ==> r == WsCommandView::Introspect {
                target: IntrospectTarget::Awaken,
                top: None,
            }
            &&& (cmd == Some("introspect"@) && target is Some && spec_introspect_target(target->0) is Some) ==> r
                == WsCommandView::Introspect { target: spec_introspect_target(target->0)->0, top: clamp_top(top) }
            &&& (r is Introspect) ==> (cmd == Some("awaken.now"@) || cmd == Some("introspect"@))
        }),
{
    lemma_command_literals();
}

/// A `top` limit that fits a `u32` is kept; a larger one becomes
/// `u32::MAX`.
pub proof fn lemma_clamp_top(top: Option<u64>)
    ensures
        top is None ==> clamp_top(top) is None,
        top is Some && top->0 <= u32::MAX ==> clamp_top(top) == Some(top->0 as u32),
        top is Some && top->0 > u32::MAX ==> clamp_top(top) == Some(u32::MAX),
{
}

} // verus!
