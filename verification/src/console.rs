//! The decisions of the interactive console: what a typed line asks for,
//! and what the `:reflex`, `:trs` and `:ws` commands ask for. Carrying the
//! request out (snapshots, queries, network sends, printing) happens
//! outside.
use vstd::prelude::*;

use crate::field::{parse_command_words, spec_command_words, CommandWords};
use crate::text::{
    chars_eq_ignore_ascii_case, chars_of, eq_ignore_ascii_case, find_char, first_index_of, has_prefix,
    parse_u64, parse_uint, string_of, strip_prefix, trim, trim_chars,
};
use crate::types::ImpulseKind;

verus! {

/// `s` with `p` stripped from its start as often as it occurs there
/// (`str::trim_start_matches` with a string pattern).
pub open spec fn strip_all(s: Seq<char>, p: Seq<char>) -> Seq<char>
    decreases s.len(),
{
    if p.len() > 0 && has_prefix(s, p) {
        strip_all(s.skip(p.len() as int), p)
    } else {
        s
    }
}

/// The first part of `s` before a space, and what follows the space, if
/// there is one (`str::splitn(2, ' ')`, `str::split_once(' ')`).
pub open spec fn split_at_space(s: Seq<char>) -> (Seq<char>, Option<Seq<char>>) {
    match first_index_of(s, ' ') {
        Some(k) => (s.take(k), Some(s.skip(k + 1))),
        None => (s, None),
    }
}

pub open spec fn rest_or_empty(o: Option<Seq<char>>) -> Seq<char> {
    match o {
        Some(r) => r,
        None => Seq::empty(),
    }
}

/// What a console line asks for.
pub enum ConsoleLine {
    Empty,
    Snapshot,
    Stats,
    Export(String),
    ExportUsage,
    Reflex(String),
    Ws(String),
    Trs(String),
    UnknownCommand(String),
    LqlUsage,
    Lql(String),
    Impulse(CommandWords),
    Unknown(String),
}

pub enum ConsoleModel {
    Empty,
    Snapshot,
    Stats,
    Export(Seq<char>),
    ExportUsage,
    Reflex(Seq<char>),
    Ws(Seq<char>),
    Trs(Seq<char>),
    UnknownCommand(Seq<char>),
    LqlUsage,
    Lql(Seq<char>),
    Impulse(ImpulseKind, Seq<char>, Option<Seq<char>>),
    Unknown(Seq<char>),
}

pub open spec fn opt_view(o: Option<String>) -> Option<Seq<char>> {
    match o {
        Some(s) => Some(s@),
        None => None,
    }
}

pub open spec fn console_view(c: ConsoleLine) -> ConsoleModel {
    match c {
        ConsoleLine::Empty => ConsoleModel::Empty,
        ConsoleLine::Snapshot => ConsoleModel::Snapshot,
        ConsoleLine::Stats => ConsoleModel::Stats,
        ConsoleLine::Export(p) => ConsoleModel::Export(p@),
        ConsoleLine::ExportUsage => ConsoleModel::ExportUsage,
        ConsoleLine::Reflex(r) => ConsoleModel::Reflex(r@),
        ConsoleLine::Ws(r) => ConsoleModel::Ws(r@),
        ConsoleLine::Trs(r) => ConsoleModel::Trs(r@),
        ConsoleLine::UnknownCommand(r) => ConsoleModel::UnknownCommand(r@),
        ConsoleLine::LqlUsage => ConsoleModel::LqlUsage,
        ConsoleLine::Lql(q) => ConsoleModel::Lql(q@),
        ConsoleLine::Impulse(w) => ConsoleModel::Impulse(w.kind, w.pattern@, opt_view(w.strength)),
        ConsoleLine::Unknown(t) => ConsoleModel::Unknown(t@),
    }
}

/// A `:` command: `snapshot`, `stats`, then by prefix `export <file>`,
/// `reflex ...`, `ws ...`, `trs ...`.
pub open spec fn spec_colon_command(rest: Seq<char>) -> ConsoleModel {
    if rest == "snapshot"@ {
        ConsoleModel::Snapshot
    } else if rest == "stats"@ {
        ConsoleModel::Stats
    } else if has_prefix(rest, "export"@) {
        let path = trim(strip_all(rest, "export"@));
        if path.len() == 0 {
            ConsoleModel::ExportUsage
        } else {
            ConsoleModel::Export(path)
        }
    } else if has_prefix(rest, "reflex"@) {
        ConsoleModel::Reflex(trim(strip_all(rest, "reflex"@)))
    } else if has_prefix(rest, "ws"@) {
        ConsoleModel::Ws(trim(strip_all(rest, "ws"@)))
    } else if has_prefix(rest, "trs"@) {
        ConsoleModel::Trs(trim(strip_all(rest, "trs"@)))
    } else {
        ConsoleModel::UnknownCommand(rest)
    }
}

/// What a console line asks for, read from its trimmed text: nothing, a
/// `:` command, an `lql` query, or an impulse `q|w|a <pattern> [strength]`.
pub open spec fn spec_console_line(line: Seq<char>) -> ConsoleModel {
    let t = trim(line);
    if t.len() == 0 {
        ConsoleModel::Empty
    } else if t[0] == ':' {
        spec_colon_command(t.drop_first())
    } else if eq_ignore_ascii_case(t, "lql"@) {
        ConsoleModel::LqlUsage
    } else if split_at_space(t).1 is Some && eq_ignore_ascii_case(split_at_space(t).0, "lql"@) {
        let q = trim(rest_or_empty(split_at_space(t).1));
        if q.len() == 0 {
            ConsoleModel::LqlUsage
        } else {
            ConsoleModel::Lql(q)
        }
    } else {
        match spec_command_words(t) {
            Some((k, p, s)) => ConsoleModel::Impulse(k, p, s),
            None => ConsoleModel::Unknown(t),
        }
    }
}

fn chars_eq(a: &[char], b: &str) -> (r: bool)
    ensures
        r == (a@ == b@),
{
    let m = b.unicode_len();
    if a.len() != m {
        return false;
    }
    let mut i: usize = 0;
    while i < m
        invariant
            m == b@.len(),
            a@.len() == m,
            i <= m,
            forall|j: int| 0 <= j < i ==> a@[j] == b@[j],
        decreases m - i,
    {
        if a[i] != b.get_char(i) {
            return false;
        }
        i += 1;
    }
    assert(a@ =~= b@);
    true
}

fn strip_all_prefix(s: &[char], p: &str) -> (r: Vec<char>)
    ensures
        r@ == strip_all(s@, p@),
{
    let mut cur: Vec<char> = vstd::slice::slice_to_vec(s);
    if p.unicode_len() == 0 {
        return cur;
    }
    loop
        invariant
            p@.len() > 0,
            strip_all(cur@, p@) == strip_all(s@, p@),
        decreases cur@.len(),
    {
        match strip_prefix(cur.as_slice(), p) {
            Some(rest) => {
                cur = rest;
            },
            None => {
                return cur;
            },
        }
    }
}

/// `s` before its first space and, if there is a space, what follows it.
fn split_space(s: &[char]) -> (r: (Vec<char>, Option<Vec<char>>))
    ensures
        r.0@ == split_at_space(s@).0,
        match (r.1, split_at_space(s@).1) {
            (Some(a), Some(b)) => a@ == b,
            (None, None) => true,
            _ => false,
        },
{
    match find_char(s, ' ') {
        Some(k) => {
            assert(k < s.len());
            let head = vstd::slice::slice_to_vec(vstd::slice::slice_subrange(s, 0, k));
            let tail = vstd::slice::slice_to_vec(vstd::slice::slice_subrange(s, k + 1, s.len()));
            assert(head@ =~= s@.take(k as int));
            assert(tail@ =~= s@.skip(k + 1));
            (head, Some(tail))
        },
        None => (vstd::slice::slice_to_vec(s), None),
    }
}

fn colon_command(rest: &[char]) -> (r: ConsoleLine)
    ensures
        console_view(r) == spec_colon_command(rest@),
{
    if chars_eq(rest, "snapshot") {
        return ConsoleLine::Snapshot;
    }
    if chars_eq(rest, "stats") {
        return ConsoleLine::Stats;
    }
    if strip_prefix(rest, "export").is_some() {
        let path = trim_chars(strip_all_prefix(rest, "export").as_slice());
        if path.len() == 0 {
            return ConsoleLine::ExportUsage;
        }
        return ConsoleLine::Export(string_of(path.as_slice()));
    }
    if strip_prefix(rest, "reflex").is_some() {
        return ConsoleLine::Reflex(string_of(trim_chars(strip_all_prefix(rest, "reflex").as_slice()).as_slice()));
    }
    if strip_prefix(rest, "ws").is_some() {
        return ConsoleLine::Ws(string_of(trim_chars(strip_all_prefix(rest, "ws").as_slice()).as_slice()));
    }
    if strip_prefix(rest, "trs").is_some() {
        return ConsoleLine::Trs(string_of(trim_chars(strip_all_prefix(rest, "trs").as_slice()).as_slice()));
    }
    ConsoleLine::UnknownCommand(string_of(rest))
}

/// Reads what a console line asks for.
pub fn classify_console_line(line: &str) -> (r: ConsoleLine)
    ensures
        console_view(r) == spec_console_line(line@),
{
    let t = trim_chars(chars_of(line).as_slice());
    if t.len() == 0 {
        return ConsoleLine::Empty;
    }
    if t[0] == ':' {
        let rest = vstd::slice::slice_to_vec(vstd::slice::slice_subrange(t.as_slice(), 1, t.len()));
        assert(rest@ =~= t@.drop_first());
        return colon_command(rest.as_slice());
    }
    if chars_eq_ignore_ascii_case(t.as_slice(), "lql") {
        return ConsoleLine::LqlUsage;
    }
    let (head, tail) = split_space(t.as_slice());
    if let Some(rest) = tail {
        if chars_eq_ignore_ascii_case(head.as_slice(), "lql") {
            let q = trim_chars(rest.as_slice());
            if q.len() == 0 {
                return ConsoleLine::LqlUsage;
            }
            return ConsoleLine::Lql(string_of(q.as_slice()));
        }
    }
    let text = string_of(t.as_slice());
    match parse_command_words(text.as_str()) {
        Some(words) => ConsoleLine::Impulse(words),
        None => ConsoleLine::Unknown(text),
    }
}

// ---------------------------------------------------------------------------
// Subcommands
// ---------------------------------------------------------------------------

/// What `:reflex ...` asks for.
pub enum ReflexCommand {
    Help,
    Add(String),
    AddUsage,
    List,
    Remove(u64),
    RemoveUsage,
    InvalidId(String),
    Unknown(String),
}

pub enum ReflexModel {
    Help,
    Add(Seq<char>),
    AddUsage,
    List,
    Remove(u64),
    RemoveUsage,
    InvalidId(Seq<char>),
    Unknown(Seq<char>),
}

pub open spec fn reflex_view(c: ReflexCommand) -> ReflexModel {
    match c {
        ReflexCommand::Help => ReflexModel::Help,
        ReflexCommand::Add(j) => ReflexModel::Add(j@),
        ReflexCommand::AddUsage => ReflexModel::AddUsage,
        ReflexCommand::List => ReflexModel::List,
        ReflexCommand::Remove(id) => ReflexModel::Remove(id),
        ReflexCommand::RemoveUsage => ReflexModel::RemoveUsage,
        ReflexCommand::InvalidId(t) => ReflexModel::InvalidId(t@),
        ReflexCommand::Unknown(t) => ReflexModel::Unknown(t@),
    }
}

/// `:reflex <sub> <rest>`: `help` (or nothing), `add <json>`, `list`,
/// `rm <id>`.
pub open spec fn spec_reflex_command(command: Seq<char>) -> ReflexModel {
    let sub = trim(split_at_space(command).0);
    let rest = trim(rest_or_empty(split_at_space(command).1));
    if sub.len() == 0 || sub == "help"@ {
        ReflexModel::Help
    } else if sub == "add"@ {
        if rest.len() == 0 {
            ReflexModel::AddUsage
        } else {
            ReflexModel::Add(rest)
        }
    } else if sub == "list"@ {
        ReflexModel::List
    } else if sub == "rm"@ {
        if rest.len() == 0 {
            ReflexModel::RemoveUsage
        } else {
            match parse_uint(rest, u64::MAX as nat) {
                Some(id) => ReflexModel::Remove(id as u64),
                None => ReflexModel::InvalidId(rest),
            }
        }
    } else {
        ReflexModel::Unknown(sub)
    }
}

fn sub_and_rest(command: &str) -> (r: (Vec<char>, Vec<char>))
    ensures
        r.0@ == trim(split_at_space(command@).0),
        r.1@ == trim(rest_or_empty(split_at_space(command@).1)),
{
    let cs = chars_of(command);
    let (head, tail) = split_space(cs.as_slice());
    let sub = trim_chars(head.as_slice());
    let rest = match tail {
        Some(t) => trim_chars(t.as_slice()),
        None => {
            let e: Vec<char> = Vec::new();
            assert(trim(Seq::<char>::empty()) =~= Seq::<char>::empty());
            e
        },
    };
    (sub, rest)
}

/// Reads a `:reflex` command.
pub fn classify_reflex_command(command: &str) -> (r: ReflexCommand)
    ensures
        reflex_view(r) == spec_reflex_command(command@),
{
    let (sub, rest) = sub_and_rest(command);
    if sub.len() == 0 || chars_eq(sub.as_slice(), "help") {
        ReflexCommand::Help
    } else if chars_eq(sub.as_slice(), "add") {
        if rest.len() == 0 {
            ReflexCommand::AddUsage
        } else {
            ReflexCommand::Add(string_of(rest.as_slice()))
        }
    } else if chars_eq(sub.as_slice(), "list") {
        ReflexCommand::List
    } else if chars_eq(sub.as_slice(), "rm") {
        if rest.len() == 0 {
            ReflexCommand::RemoveUsage
        } else {
            match parse_u64(rest.as_slice()) {
                Some(id) => ReflexCommand::Remove(id),
                None => ReflexCommand::InvalidId(string_of(rest.as_slice())),
            }
        }
    } else {
        ReflexCommand::Unknown(string_of(sub.as_slice()))
    }
}

/// What `:trs ...` asks for.
pub enum TrsCommand {
    Show,
    SetConfig(String),
    SetUsage,
    Target(String),
    TargetUsage,
    Unknown(String),
}

pub enum TrsModel {
    Show,
    SetConfig(Seq<char>),
    SetUsage,
    Target(Seq<char>),
    TargetUsage,
    Unknown(Seq<char>),
}

pub open spec fn trs_view(c: TrsCommand) -> TrsModel {
    match c {
        TrsCommand::Show => TrsModel::Show,
        TrsCommand::SetConfig(j) => TrsModel::SetConfig(j@),
        TrsCommand::SetUsage => TrsModel::SetUsage,
        TrsCommand::Target(v) => TrsModel::Target(v@),
        TrsCommand::TargetUsage => TrsModel::TargetUsage,
        TrsCommand::Unknown(t) => TrsModel::Unknown(t@),
    }
}

/// `:trs <sub> <rest>`: `show` (or nothing), `set <json>`, `target <value>`.
pub open spec fn spec_trs_command(command: Seq<char>) -> TrsModel {
    let sub = trim(split_at_space(command).0);
    let rest = trim(rest_or_empty(split_at_space(command).1));
    if sub.len() == 0 || sub == "show"@ {
        TrsModel::Show
    } else if sub == "set"@ {
        if rest.len() == 0 {
            TrsModel::SetUsage
        } else {
            TrsModel::SetConfig(rest)
        }
    } else if sub == "target"@ {
        if rest.len() == 0 {
            TrsModel::TargetUsage
        } else {
            TrsModel::Target(rest)
        }
    } else {
        TrsModel::Unknown(sub)
    }
}

/// Reads a `:trs` command.
pub fn classify_trs_command(command: &str) -> (r: TrsCommand)
    ensures
        trs_view(r) == spec_trs_command(command@),
{
    let (sub, rest) = sub_and_rest(command);
    if sub.len() == 0 || chars_eq(sub.as_slice(), "show") {
        TrsCommand::Show
    } else if chars_eq(sub.as_slice(), "set") {
        if rest.len() == 0 {
            TrsCommand::SetUsage
        } else {
            TrsCommand::SetConfig(string_of(rest.as_slice()))
        }
    } else if chars_eq(sub.as_slice(), "target") {
        if rest.len() == 0 {
            TrsCommand::TargetUsage
        } else {
            TrsCommand::Target(string_of(rest.as_slice()))
        }
    } else {
        TrsCommand::Unknown(string_of(sub.as_slice()))
    }
}

/// What `:ws ...` asks for.
pub enum WsCommand {
    Help,
    Info,
    Send(String),
    SendUsage,
    Broadcast(String),
    BroadcastUsage,
    Unknown(String),
}

pub enum WsModel {
    Help,
    Info,
    Send(Seq<char>),
    SendUsage,
    Broadcast(Seq<char>),
    BroadcastUsage,
    Unknown(Seq<char>),
}

pub open spec fn ws_view(c: WsCommand) -> WsModel {
    match c {
        WsCommand::Help => WsModel::Help,
        WsCommand::Info => WsModel::Info,
        WsCommand::Send(j) => WsModel::Send(j@),
        WsCommand::SendUsage => WsModel::SendUsage,
        WsCommand::Broadcast(j) => WsModel::Broadcast(j@),
        WsCommand::BroadcastUsage => WsModel::BroadcastUsage,
        WsCommand::Unknown(t) => WsModel::Unknown(t@),
    }
}

/// `:ws <sub> <rest>`: `help` (or nothing), `info`, `send <json>`,
/// `broadcast <json>`.
pub open spec fn spec_ws_command(command: Seq<char>) -> WsModel {
    let sub = trim(split_at_space(command).0);
    let rest = trim(rest_or_empty(split_at_space(command).1));
    if sub.len() == 0 || sub == "help"@ {
        WsModel::Help
    } else if sub == "info"@ {
        WsModel::Info
    } else if sub == "send"@ {
        if rest.len() == 0 {
            WsModel::SendUsage
        } else {
            WsModel::Send(rest)
        }
    } else if sub == "broadcast"@ {
        if rest.len() == 0 {
            WsModel::BroadcastUsage
        } else {
            WsModel::Broadcast(rest)
        }
    } else {
        WsModel::Unknown(sub)
    }
}

/// Reads a `:ws` command.
pub fn classify_ws_command(command: &str) -> (r: WsCommand)
    ensures
        ws_view(r) == spec_ws_command(command@),
{
    let (sub, rest) = sub_and_rest(command);
    if sub.len() == 0 || chars_eq(sub.as_slice(), "help") {
        WsCommand::Help
    } else if chars_eq(sub.as_slice(), "info") {
        WsCommand::Info
    } else if chars_eq(sub.as_slice(), "send") {
        if rest.len() == 0 {
            WsCommand::SendUsage
        } else {
            WsCommand::Send(string_of(rest.as_slice()))
        }
    } else if chars_eq(sub.as_slice(), "broadcast") {
        if rest.len() == 0 {
            WsCommand::BroadcastUsage
        } else {
            WsCommand::Broadcast(string_of(rest.as_slice()))
        }
    } else {
        WsCommand::Unknown(string_of(sub.as_slice()))
    }
}


// ---------------------------------------------------------------------------
// What each word asks for
// ---------------------------------------------------------------------------

/// The first word of a subcommand, trimmed.
pub open spec fn first_word(c: Seq<char>) -> Seq<char> {
    trim(split_at_space(c).0)
}

/// What follows the first word of a subcommand, trimmed.
pub open spec fn after_first_word(c: Seq<char>) -> Seq<char> {
    trim(rest_or_empty(split_at_space(c).1))
}

proof fn lemma_command_literals()
    ensures
        "help"@ == seq!['h', 'e', 'l', 'p'],
        "info"@ == seq!['i', 'n', 'f', 'o'],
        "send"@ == seq!['s', 'e', 'n', 'd'],
        "broadcast"@.len() == 9,
        "show"@ == seq!['s', 'h', 'o', 'w'],
        "set"@ == seq!['s', 'e', 't'],
        "target"@.len() == 6,
        "add"@ == seq!['a', 'd', 'd'],
        "list"@ == seq!['l', 'i', 's', 't'],
        "rm"@ == seq!['r', 'm'],
        "snapshot"@.len() == 8 && "snapshot"@[0] == 's' && "snapshot"@[1] == 'n',
        "stats"@.len() == 5 && "stats"@[0] == 's' && "stats"@[1] == 't',
        "export"@.len() == 6 && "export"@[0] == 'e',
        "reflex"@.len() == 6 && "reflex"@[0] == 'r',
        "ws"@.len() == 2 && "ws"@[0] == 'w',
        "trs"@.len() == 3 && "trs"@[0] == 't',
{
    reveal_strlit("help");
    reveal_strlit("info");
    reveal_strlit("send");
    reveal_strlit("broadcast");
    reveal_strlit("show");
    reveal_strlit("set");
    reveal_strlit("target");
    reveal_strlit("add");
    reveal_strlit("list");
    reveal_strlit("rm");
    reveal_strlit("snapshot");
    reveal_strlit("stats");
    reveal_strlit("export");
    reveal_strlit("reflex");
    reveal_strlit("ws");
    reveal_strlit("trs");
}

/// `:ws` reads its first word: `help` or nothing asks for help, `info` for
/// the connection, `send` for sending the rest to the connected remote,
/// `broadcast` for sending the rest to every client (each without a rest
/// asks how to use it); any other word is unknown.
pub proof fn lemma_ws_command_words(c: Seq<char>)
    ensures
        ({
            let w = first_word(c);
            let rest = after_first_word(c);
            let r = spec_ws_command(c);
            &&& (r is Help) <==> (w.len() == 0 || w == "help"@)
            &&& (r is Info) <==> (w == "info"@)
            &&& (r is Send) <==> (w == "send"@ && rest.len() > 0)
            &&& (r is SendUsage) <==> (w == "send"@ && rest.len() == 0)
            &&& (r is Broadcast) <==> (w == "broadcast"@ && rest.len() > 0)
            &&& (r is BroadcastUsage) <==> (w == "broadcast"@ && rest.len() == 0)
            &&& (r matches WsModel::Send(j) ==> j == rest)
            &&& (r matches WsModel::Broadcast(j) ==> j == rest)
            &&& (r matches WsModel::Unknown(t) ==> t == w)
        }),
{
    lemma_command_literals();
}

/// `:trs` reads its first word: `show` or nothing shows the regulator,
/// `set` sets its settings to the rest, `target` its target to the rest
/// (each without a rest asks how to use it); any other word is unknown.
pub proof fn lemma_trs_command_words(c: Seq<char>)
    ensures
        ({
            let w = first_word(c);
            let rest = after_first_word(c);
            let r = spec_trs_command(c);
            &&& (r is Show) <==> (w.len() == 0 || w == "show"@)
            &&& (r is SetConfig) <==> (w == "set"@ && rest.len() > 0)
            &&& (r is SetUsage) <==> (w == "set"@ && rest.len() == 0)
            &&& (r is Target) <==> (w == "target"@ && rest.len() > 0)
            &&& (r is TargetUsage) <==> (w == "target"@ && rest.len() == 0)
            &&& (r matches TrsModel::SetConfig(j) ==> j == rest)
            &&& (r matches TrsModel::Target(v) ==> v == rest)
            &&& (r matches TrsModel::Unknown(t) ==> t == w)
        }),
{
    lemma_command_literals();
}

/// `:reflex` reads its first word: `help` or nothing asks for help, `add`
/// adds the rule the rest holds, `list` lists the rules, `rm` removes the
/// rule whose id the rest is (each without a rest asks how to use it; a
/// rest that is no id is refused); any other word is unknown.
pub proof fn lemma_reflex_command_words(c: Seq<char>)
    ensures
        ({
            let w = first_word(c);
            let rest = after_first_word(c);
            let r = spec_reflex_command(c);
            &&& (r is Help) <==> (w.len() == 0 || w == "help"@)
            &&& (r is Add) <==> (w == "add"@ && rest.len() > 0)
            &&& (r is AddUsage) <==> (w == "add"@ && rest.len() == 0)
            &&& (r is List) <==> (w == "list"@)
            &&& (r is RemoveUsage) <==> (w == "rm"@ && rest.len() == 0)
            &&& (r is Remove) <==> (w == "rm"@ && rest.len() > 0 && parse_uint(rest, u64::MAX as nat) is Some)
            &&& (r is InvalidId) <==> (w == "rm"@ && rest.len() > 0 && parse_uint(rest, u64::MAX as nat) is None)
            &&& (r matches ReflexModel::Add(j) ==> j == rest)
            &&& (r matches ReflexModel::Remove(id) ==> id == parse_uint(rest, u64::MAX as nat)->0)
            &&& (r matches ReflexModel::InvalidId(t) ==> t == rest)
            &&& (r matches ReflexModel::Unknown(t) ==> t == w)
        }),
{
    lemma_command_literals();
}

/// A `:` command: `snapshot` and `stats` ask for those; a command that
/// starts with `export`, `reflex`, `ws` or `trs` is that command, with the
/// rest after the word (an export without a path asks how to use it);
/// anything else is an unknown command.
pub proof fn lemma_colon_command_words(rest: Seq<char>)
    ensures
        ({
            let r = spec_colon_command(rest);
            &&& (r is Snapshot) <==> (rest == "snapshot"@)
            &&& (r is Stats) <==> (rest == "stats"@)
            &&& (r is Export || r is ExportUsage) <==> has_prefix(rest, "export"@)
            &&& (r is Reflex) <==> has_prefix(rest, "reflex"@)
            &&& (r is Ws) <==> has_prefix(rest, "ws"@)
            &&& (r is Trs) <==> has_prefix(rest, "trs"@)
            &&& (r matches ConsoleModel::Export(p) ==> p.len() > 0 && p == trim(strip_all(rest, "export"@)))
            &&& (r matches ConsoleModel::Reflex(x) ==> x == trim(strip_all(rest, "reflex"@)))
            &&& (r matches ConsoleModel::Ws(x) ==> x == trim(strip_all(rest, "ws"@)))
            &&& (r matches ConsoleModel::Trs(x) ==> x == trim(strip_all(rest, "trs"@)))
            &&& (r matches ConsoleModel::UnknownCommand(x) ==> x == rest)
        }),
{
    lemma_command_literals();
    if has_prefix(rest, "export"@) {
        assert(rest[0] == rest.take(6)[0]);
    }
    if has_prefix(rest, "reflex"@) {
        assert(rest[0] == rest.take(6)[0]);
    }
    if has_prefix(rest, "ws"@) {
        assert(rest[0] == rest.take(2)[0]);
    }
    if has_prefix(rest, "trs"@) {
        assert(rest[0] == rest.take(3)[0]);
    }
}

/// A console line: blank asks for nothing; a line that starts with `:` is
/// a `:` command and only such lines are; an `lql` line with a query asks
/// for that query; a line that reads as impulse words is that impulse.
pub proof fn lemma_console_line_kinds(line: Seq<char>)
    ensures
        ({
            let t = trim(line);
            let r = spec_console_line(line);
            &&& (r is Empty) <==> (t.len() == 0)
            &&& (t.len() > 0 && t[0] == ':') ==> r == spec_colon_command(t.drop_first())
            &&& (r is Snapshot || r is Stats || r is Export || r is ExportUsage || r is Reflex || r is Ws || r is Trs
                || r is UnknownCommand) ==> (t.len() > 0 && t[0] == ':')
            &&& (r matches ConsoleModel::Lql(q) ==> q.len() > 0 && eq_ignore_ascii_case(first_word(t), "lql"@)
                && q == after_first_word(t))
            &&& (r matches ConsoleModel::Impulse(k, p, st) ==> spec_command_words(t) == Some((k, p, st)))
        }),
{
    lemma_command_literals();
    let t = trim(line);
    if t.len() > 0 && t[0] != ':' && !eq_ignore_ascii_case(t, "lql"@) && split_at_space(t).1 is Some
        && eq_ignore_ascii_case(split_at_space(t).0, "lql"@) {
        reveal_strlit("lql");
        let h = split_at_space(t).0;
        assert(h.len() == 3);
        assert forall|i: int| 0 <= i < h.len() implies (#[trigger] h[i]) != ' ' by {
            match first_index_of(t, ' ') {
                Some(k) => {
                    assert(h == t.take(k));
                },
                None => {},
            }
        }
    }
}

} // verus!
