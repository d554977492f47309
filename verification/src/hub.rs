//! The stream hub: the register of connected clients, their wire formats,
//! and the short keys used on the CBOR wire.
use vstd::prelude::*;
use std::time::Duration;
use std::time::Instant;

use crate::text::{decimal, push_decimal, str_eq};

verus! {

/// `std::time::Instant`, carried through as an opaque value.
#[verifier::external_type_specification]
#[verifier::external_body]
pub struct ExInstant(Instant);

/// The encoding of a client's stream.
#[derive(Debug, Clone, Copy, PartialEq, Eq, Structural)]
pub enum StreamFormat {
    Json,
    Cbor,
}

impl Default for StreamFormat {
    fn default() -> (f: StreamFormat)
        ensures
            f == StreamFormat::Json,
    {
        StreamFormat::Json
    }
}

pub open spec fn format_name(f: StreamFormat) -> Seq<char> {
    match f {
        StreamFormat::Json => "Json"@,
        StreamFormat::Cbor => "Cbor"@,
    }
}

/// A connected client.
#[derive(Debug)]
pub struct ClientSnapshot {
    pub id: u64,
    pub last_ping: Instant,
    pub connected_at: Instant,
    pub addr: String,
    pub format: StreamFormat,
}

pub struct ClientModel {
    pub id: u64,
    pub last_ping: Instant,
    pub connected_at: Instant,
    pub addr: Seq<char>,
    pub format: StreamFormat,
}

impl View for ClientSnapshot {
    type V = ClientModel;

    open spec fn view(&self) -> ClientModel {
        ClientModel {
            id: self.id,
            last_ping: self.last_ping,
            connected_at: self.connected_at,
            addr: self.addr@,
            format: self.format,
        }
    }
}

impl Clone for ClientSnapshot {
    fn clone(&self) -> (c: ClientSnapshot)
        ensures
            c@ == self@,
    {
        self.copy()
    }
}

impl ClientSnapshot {
    fn copy(&self) -> (c: ClientSnapshot)
        ensures
            c@ == self@,
    {
        ClientSnapshot {
            id: self.id,
            last_ping: self.last_ping,
            connected_at: self.connected_at,
            addr: self.addr.clone(),
            format: self.format,
        }
    }
}

/// `Instant::now`: the current time. Nothing is promised of it.
#[verifier::external_body]
pub fn now_instant() -> Instant {
    Instant::now()
}

/// `Instant::elapsed`: the time since `instant`. Nothing is promised of it.
#[verifier::external_body]
pub fn age_since(instant: Instant) -> Duration {
    instant.elapsed()
}

/// `Duration::as_secs`: the whole seconds of `d`. Nothing is promised of
/// them here.
#[verifier::external_body]
fn whole_seconds(d: Duration) -> u64 {
    d.as_secs()
}

/// The registered clients and the default stream format.
pub struct ClientRegistry {
    clients: Vec<ClientSnapshot>,
    default_format: StreamFormat,
}

pub struct RegistryView {
    pub clients: Seq<ClientModel>,
    pub default_format: StreamFormat,
}

/// The first client with id `id`.
#[verifier::opaque]
pub open spec fn first_with_id(s: Seq<ClientModel>, id: u64) -> Option<int> {
    if exists|i: int| 0 <= i < s.len() && s[i].id == id && forall|j: int| 0 <= j < i ==> s[j].id != id {
        Some(choose|i: int| 0 <= i < s.len() && s[i].id == id && forall|j: int| 0 <= j < i ==> s[j].id != id)
    } else {
        None
    }
}

/// The first client with an id is one of the clients, with that id.
pub proof fn lemma_first_with_id(s: Seq<ClientModel>, id: u64)
    ensures
        first_with_id(s, id) matches Some(i) ==> 0 <= i < s.len() && s[i].id == id,
{
    reveal(first_with_id);
}

impl ClientRegistry {
    pub closed spec fn view(&self) -> RegistryView {
        RegistryView {
            clients: Seq::new(self.clients@.len(), |i: int| self.clients@[i]@),
            default_format: self.default_format,
        }
    }

    /// No clients; streams default to JSON.
    pub fn new() -> (r: ClientRegistry)
        ensures
            r.view().clients == Seq::<ClientModel>::empty(),
            r.view().default_format == StreamFormat::Json,
    {
        let r = ClientRegistry { clients: Vec::new(), default_format: StreamFormat::Json };
        assert(r.view().clients =~= Seq::<ClientModel>::empty());
        r
    }

    fn find(&self, id: u64) -> (r: Option<usize>)
        ensures
            r matches Some(i) ==> first_with_id(self.view().clients, id) == Some(i as int) && i < self.clients@.len(),
            r is None ==> first_with_id(self.view().clients, id) is None,
    {
        reveal(first_with_id);
        let ghost s = self.view().clients;
        let mut i: usize = 0;
        while i < self.clients.len()
            invariant
                s == self.view().clients,
                i <= self.clients@.len(),
                forall|j: int| 0 <= j < i ==> s[j].id != id,
            decreases self.clients.len() - i,
        {
            if self.clients[i].id == id {
                assert(s[i as int].id == id);
                proof {
                    reveal(first_with_id);
                    let k = choose|k: int| 0 <= k < s.len() && s[k].id == id && forall|j: int| 0 <= j < k ==> s[j].id != id;
                    if k < i {
                    } else if k > i {
                        assert(s[i as int].id != id);
                    }
                }
                return Some(i);
            }
            i += 1;
        }
        proof {
            reveal(first_with_id);
        }
        None
    }

    /// Adds a client at the end of the register.
    pub fn register(&mut self, snapshot: ClientSnapshot)
        ensures
            final(self).view().clients == old(self).view().clients.push(snapshot@),
            final(self).view().default_format == old(self).view().default_format,
    {
        let ghost before = self.view().clients;
        let ghost sv = snapshot@;
        self.clients.push(snapshot);
        assert(self.view().clients =~= before.push(sv));
    }

    /// Records a ping at `now` from the first client with id `id`.
    pub fn update_ping(&mut self, id: u64, now: Instant)
        ensures
            final(self).view().default_format == old(self).view().default_format,
            final(self).view().clients == match first_with_id(old(self).view().clients, id) {
                Some(i) => old(self).view().clients.update(i, ClientModel { last_ping: now, ..old(self).view().clients[i] }),
                None => old(self).view().clients,
            },
    {
        let ghost before = self.view().clients;
        if let Some(i) = self.find(id) {
            let mut c = self.clients[i].copy();
            c.last_ping = now;
            let ghost cv = c@;
            self.clients.set(i, c);
            assert(self.view().clients =~= before.update(i as int, cv));
        }
    }

    /// Sets the stream format of the first client with id `id`.
    pub fn update_format(&mut self, id: u64, format: StreamFormat)
        ensures
            final(self).view().default_format == old(self).view().default_format,
            final(self).view().clients == match first_with_id(old(self).view().clients, id) {
                Some(i) => old(self).view().clients.update(i, ClientModel { format, ..old(self).view().clients[i] }),
                None => old(self).view().clients,
            },
    {
        let ghost before = self.view().clients;
        if let Some(i) = self.find(id) {
            let mut c = self.clients[i].copy();
            c.format = format;
            let ghost cv = c@;
            self.clients.set(i, c);
            assert(self.view().clients =~= before.update(i as int, cv));
        }
    }

    /// Drops every client with id `id`.
    pub fn remove(&mut self, id: u64)
        ensures
            final(self).view().default_format == old(self).view().default_format,
            final(self).view().clients == old(self).view().clients.filter(|c: ClientModel| c.id != id),
    {
        let ghost before = self.view().clients;
        let ghost keep = |c: ClientModel| c.id != id;
        let mut kept: Vec<ClientSnapshot> = Vec::new();
        let mut i: usize = 0;
        while i < self.clients.len()
            invariant
                before == self.view().clients,
                keep == (|c: ClientModel| c.id != id),
                i <= self.clients@.len(),
                Seq::new(kept@.len(), |k: int| kept@[k]@) == before.take(i as int).filter(keep),
            decreases self.clients.len() - i,
        {
            proof {
                reveal_with_fuel(Seq::<_>::filter, 1);
                assert(before.take(i + 1).drop_last() =~= before.take(i as int));
                assert(before[i as int] == self.clients@[i as int]@);
            }
            let ghost kept_before = Seq::new(kept@.len(), |k: int| kept@[k]@);
            if self.clients[i].id != id {
                let c = self.clients[i].copy();
                kept.push(c);
                assert(Seq::new(kept@.len(), |k: int| kept@[k]@) =~= kept_before.push(before[i as int]));
            }
            i += 1;
        }
        assert(before.take(before.len() as int) =~= before);
        self.clients = kept;
    }

    pub fn default_format(&self) -> (f: StreamFormat)
        ensures
            f == self.view().default_format,
    {
        self.default_format
    }

    pub fn set_default_format(&mut self, format: StreamFormat)
        ensures
            final(self).view().default_format == format,
            final(self).view().clients == old(self).view().clients,
    {
        self.default_format = format;
    }

    /// The registered clients, in registration order.
    pub fn list(&self) -> (l: Vec<ClientSnapshot>)
        ensures
            Seq::new(l@.len(), |k: int| l@[k]@) == self.view().clients,
    {
        let mut l: Vec<ClientSnapshot> = Vec::new();
        let mut i: usize = 0;
        while i < self.clients.len()
            invariant
                i <= self.clients@.len(),
                l@.len() == i,
                forall|k: int| 0 <= k < i ==> #[trigger] l@[k]@ == self.clients@[k]@,
            decreases self.clients.len() - i,
        {
            l.push(self.clients[i].copy());
            i += 1;
        }
        assert(Seq::new(l@.len(), |k: int| l@[k]@) =~= self.view().clients);
        l
    }
}

/// Adds a client to the register.
pub fn register_client_snapshot(hub: &mut ClientRegistry, snapshot: ClientSnapshot)
    ensures
        final(hub).view().clients == old(hub).view().clients.push(snapshot@),
        final(hub).view().default_format == old(hub).view().default_format,
{
    hub.register(snapshot);
}

/// Records that client `id` pinged just now.
pub fn update_client_ping(hub: &mut ClientRegistry, id: u64)
    ensures
        final(hub).view().default_format == old(hub).view().default_format,
        match first_with_id(old(hub).view().clients, id) {
            Some(i) => final(hub).view().clients == old(hub).view().clients.update(
                i,
                ClientModel { last_ping: final(hub).view().clients[i].last_ping, ..old(hub).view().clients[i] },
            ),
            None => final(hub).view().clients == old(hub).view().clients,
        },
{
    let now = now_instant();
    hub.update_ping(id, now);
    proof {
        lemma_first_with_id(old(hub).view().clients, id);
        if let Some(i) = first_with_id(old(hub).view().clients, id) {
            let s = old(hub).view().clients;
            assert(0 <= i < s.len());
            assert(final(hub).view().clients[i].last_ping == now);
        }
    }
}

/// Drops client `id` from the register.
pub fn remove_client_snapshot(hub: &mut ClientRegistry, id: u64)
    ensures
        final(hub).view().default_format == old(hub).view().default_format,
        final(hub).view().clients == old(hub).view().clients.filter(|c: ClientModel| c.id != id),
{
    hub.remove(id);
}

/// Sets the stream format of client `id`.
pub fn update_client_format(hub: &mut ClientRegistry, id: u64, format: StreamFormat)
    ensures
        final(hub).view().default_format == old(hub).view().default_format,
        final(hub).view().clients == match first_with_id(old(hub).view().clients, id) {
            Some(i) => old(hub).view().clients.update(i, ClientModel { format, ..old(hub).view().clients[i] }),
            None => old(hub).view().clients,
        },
{
    hub.update_format(id, format);
}

/// Sets the format new streams use.
pub fn set_default_format(hub: &mut ClientRegistry, format: StreamFormat)
    ensures
        final(hub).view().default_format == format,
        final(hub).view().clients == old(hub).view().clients,
{
    hub.set_default_format(format);
}

/// The registered clients.
pub fn list_clients(hub: &ClientRegistry) -> (l: Vec<ClientSnapshot>)
    ensures
        Seq::new(l@.len(), |k: int| l@[k]@) == hub.view().clients,
{
    hub.list()
}

/// One call on the register, as its contracts describe it.
pub enum HubCall {
    Register(ClientModel),
    Ping(u64, Instant),
    Format(u64, StreamFormat),
    Remove(u64),
    SetDefault(StreamFormat),
}

/// The register after one call: what `register`, `update_ping`,
/// `update_format`, `remove` and `set_default_format` ensure.
pub open spec fn hub_step(v: RegistryView, call: HubCall) -> RegistryView {
    match call {
        HubCall::Register(c) => RegistryView { clients: v.clients.push(c), ..v },
        HubCall::Ping(id, now) => RegistryView {
            clients: match first_with_id(v.clients, id) {
                Some(i) => v.clients.update(i, ClientModel { last_ping: now, ..v.clients[i] }),
                None => v.clients,
            },
            ..v
        },
        HubCall::Format(id, format) => RegistryView {
            clients: match first_with_id(v.clients, id) {
                Some(i) => v.clients.update(i, ClientModel { format, ..v.clients[i] }),
                None => v.clients,
            },
            ..v
        },
        HubCall::Remove(id) => RegistryView { clients: v.clients.filter(|c: ClientModel| c.id != id), ..v },
        HubCall::SetDefault(format) => RegistryView { default_format: format, ..v },
    }
}

/// The register after calls in order.
pub open spec fn hub_run(v: RegistryView, calls: Seq<HubCall>) -> RegistryView
    decreases calls.len(),
{
    if calls.len() == 0 {
        v
    } else {
        hub_step(hub_run(v, calls.drop_last()), calls.last())
    }
}

/// Some listed client has `c`'s id, address and connection time.
pub open spec fn lists(v: RegistryView, c: ClientModel) -> bool {
    exists|k: int|
        #![trigger v.clients[k]]
        0 <= k < v.clients.len() && v.clients[k].id == c.id && v.clients[k].addr == c.addr
            && v.clients[k].connected_at == c.connected_at
}

/// A call other than removing `c`'s id keeps `c` listed.
proof fn lemma_step_keeps_listed(v: RegistryView, c: ClientModel, call: HubCall)
    requires
        lists(v, c),
        call != HubCall::Remove(c.id),
    ensures
        lists(hub_step(v, call), c),
{
    let k = choose|k: int|
        #![trigger v.clients[k]]
        0 <= k < v.clients.len() && v.clients[k].id == c.id && v.clients[k].addr == c.addr
            && v.clients[k].connected_at == c.connected_at;
    let w = hub_step(v, call);
    match call {
        HubCall::Register(d) => {
            assert(w.clients[k] == v.clients[k]);
        },
        HubCall::Ping(id, now) => {
            lemma_first_with_id(v.clients, id);
            assert(w.clients[k].id == c.id && w.clients[k].addr == c.addr && w.clients[k].connected_at == c.connected_at);
        },
        HubCall::Format(id, format) => {
            lemma_first_with_id(v.clients, id);
            assert(w.clients[k].id == c.id && w.clients[k].addr == c.addr && w.clients[k].connected_at == c.connected_at);
        },
        HubCall::Remove(id) => {
            let keep = |m: ClientModel| m.id != id;
            v.clients.filter_lemma(keep);
            assert(w.clients.contains(v.clients[k]));
            let j = choose|j: int| 0 <= j < w.clients.len() && w.clients[j] == v.clients[k];
            assert(w.clients[j].id == c.id);
        },
        HubCall::SetDefault(format) => {
            assert(w.clients[k] == v.clients[k]);
        },
    }
}

/// A client that was registered, and whose id no call removed since, is
/// listed with its id, address and connection time, whatever pings and
/// format changes came in between.
pub proof fn lemma_registered_stays_listed(v: RegistryView, c: ClientModel, calls: Seq<HubCall>)
    requires
        forall|i: int| 0 <= i < calls.len() ==> calls[i] != HubCall::Remove(c.id),
    ensures
        lists(hub_run(hub_step(v, HubCall::Register(c)), calls), c),
    decreases calls.len(),
{
    if calls.len() == 0 {
        let w = hub_step(v, HubCall::Register(c));
        assert(w.clients[v.clients.len() as int] == c);
    } else {
        lemma_registered_stays_listed(v, c, calls.drop_last());
        assert(calls.last() == calls[calls.len() - 1]);
        lemma_step_keeps_listed(hub_run(hub_step(v, HubCall::Register(c)), calls.drop_last()), c, calls.last());
    }
}

/// After removing an id, no listed client has it.
pub proof fn lemma_removed_not_listed(v: RegistryView, id: u64)
    ensures
        forall|k: int| 0 <= k < hub_step(v, HubCall::Remove(id)).clients.len()
            ==> #[trigger] hub_step(v, HubCall::Remove(id)).clients[k].id != id,
{
    v.clients.filter_lemma(|c: ClientModel| c.id != id);
}

/// The report line of a client connected `age_secs` seconds ago.
pub open spec fn client_line(c: ClientModel, age_secs: u64) -> Seq<char> {
    "id="@ + decimal(c.id as nat) + " addr="@ + c.addr + " connected="@ + decimal(age_secs as nat)
        + "s ago format="@ + format_name(c.format)
}

/// `line` is the report line of client `c` for some age.
pub open spec fn is_client_line(line: Seq<char>, c: ClientModel) -> bool {
    exists|age: u64| line == #[trigger] client_line(c, age)
}

/// Writes the report line of a client connected `age_secs` seconds ago.
pub fn format_client_line(c: &ClientSnapshot, age_secs: u64) -> (s: String)
    ensures
        s@ == client_line(c@, age_secs),
{
    let mut s = "id=".to_string();
    push_decimal(&mut s, c.id);
    s.append(" addr=");
    s.append(c.addr.as_str());
    s.append(" connected=");
    push_decimal(&mut s, age_secs);
    s.append("s ago format=");
    match c.format {
        StreamFormat::Json => s.append("Json"),
        StreamFormat::Cbor => s.append("Cbor"),
    }
    s
}

/// One report line per client, in order, each with the client's age.
pub fn format_clients(clients: &[ClientSnapshot]) -> (lines: Vec<String>)
    ensures
        lines@.len() == clients@.len(),
        forall|i: int| 0 <= i < lines@.len() ==> is_client_line(#[trigger] lines@[i]@, clients@[i]@),
{
    let mut lines: Vec<String> = Vec::new();
    let mut i: usize = 0;
    while i < clients.len()
        invariant
            i <= clients@.len(),
            lines@.len() == i,
            forall|k: int| 0 <= k < i ==> is_client_line(#[trigger] lines@[k]@, clients@[k]@),
        decreases clients.len() - i,
    {
        let age = whole_seconds(age_since(clients[i].connected_at));
        let line = format_client_line(&clients[i], age);
        let ghost lines_before = lines@;
        lines.push(line);
        assert(lines@[i as int]@ == client_line(clients@[i as int]@, age));
        assert forall|k: int| 0 <= k < i + 1 implies is_client_line(#[trigger] lines@[k]@, clients@[k]@) by {
            if k < i {
                assert(lines@[k] == lines_before[k]);
            } else {
                assert(lines@[k]@ == client_line(clients@[k]@, age));
            }
        }
        i += 1;
    }
    lines
}

// ---------------------------------------------------------------------------
// Wire keys
// ---------------------------------------------------------------------------

/// The short form of a JSON key on the CBOR wire.
pub open spec fn spec_shorten_key(k: Seq<char>) -> Seq<char> {
    if k == "command"@ || k == "cmd"@ {
        "cmd"@
    } else if k == "query"@ || k == "q"@ {
        "q"@
    } else if k == "data"@ || k == "d"@ {
        "d"@
    } else if k == "pattern"@ || k == "p"@ {
        "p"@
    } else if k == "format"@ || k == "f"@ {
        "f"@
    } else if k == "events"@ || k == "ev"@ {
        "ev"@
    } else if k == "metrics"@ || k == "mt"@ {
        "mt"@
    } else if k == "meta"@ {
        "m"@
    } else if k == "source"@ || k == "src"@ {
        "src"@
    } else {
        k
    }
}

/// The long form of a key read off the CBOR wire.
pub open spec fn spec_expand_key(k: Seq<char>) -> Seq<char> {
    if k == "d"@ {
        "data"@
    } else if k == "p"@ {
        "pattern"@
    } else if k == "f"@ {
        "format"@
    } else if k == "ev"@ {
        "events"@
    } else if k == "mt"@ {
        "metrics"@
    } else if k == "m"@ {
        "meta"@
    } else if k == "src"@ {
        "source"@
    } else {
        k
    }
}

/// Shortens a key for the CBOR wire.
pub fn shorten_key(key: &str) -> (s: String)
    ensures
        s@ == spec_shorten_key(key@),
{
    if str_eq(key, "command") || str_eq(key, "cmd") {
        "cmd".to_string()
    } else if str_eq(key, "query") || str_eq(key, "q") {
        "q".to_string()
    } else if str_eq(key, "data") || str_eq(key, "d") {
        "d".to_string()
    } else if str_eq(key, "pattern") || str_eq(key, "p") {
        "p".to_string()
    } else if str_eq(key, "format") || str_eq(key, "f") {
        "f".to_string()
    } else if str_eq(key, "events") || str_eq(key, "ev") {
        "ev".to_string()
    } else if str_eq(key, "metrics") || str_eq(key, "mt") {
        "mt".to_string()
    } else if str_eq(key, "meta") {
        "m".to_string()
    } else if str_eq(key, "source") || str_eq(key, "src") {
        "src".to_string()
    } else {
        key.to_string()
    }
}

/// Expands a key read off the CBOR wire.
pub fn expand_key(key: &str) -> (s: String)
    ensures
        s@ == spec_expand_key(key@),
{
    if str_eq(key, "d") {
        "data".to_string()
    } else if str_eq(key, "p") {
        "pattern".to_string()
    } else if str_eq(key, "f") {
        "format".to_string()
    } else if str_eq(key, "ev") {
        "events".to_string()
    } else if str_eq(key, "mt") {
        "metrics".to_string()
    } else if str_eq(key, "m") {
        "meta".to_string()
    } else if str_eq(key, "src") {
        "source".to_string()
    } else {
        key.to_string()
    }
}

/// The short keys, and the two long keys whose short form is already a
/// key of its own.
pub open spec fn wire_ambiguous(k: Seq<char>) -> bool {
    k == "command"@ || k == "query"@ || k == "d"@ || k == "p"@ || k == "f"@ || k == "ev"@
        || k == "mt"@ || k == "m"@ || k == "src"@
}

/// A key sent over the CBOR wire is read back as itself, unless it is
/// one of the short keys or `command` / `query`.
pub proof fn lemma_expand_after_shorten(k: Seq<char>)
    requires
        !wire_ambiguous(k),
    ensures
        spec_expand_key(spec_shorten_key(k)) == k,
{
    reveal_strlit("cmd");
    reveal_strlit("command");
    reveal_strlit("query");
    reveal_strlit("q");
    reveal_strlit("d");
    reveal_strlit("p");
    reveal_strlit("f");
    reveal_strlit("ev");
    reveal_strlit("mt");
    reveal_strlit("m");
    reveal_strlit("src");
    reveal_strlit("data");
    reveal_strlit("pattern");
    reveal_strlit("format");
    reveal_strlit("events");
    reveal_strlit("metrics");
    reveal_strlit("meta");
    reveal_strlit("source");
    assert("pattern"@[0] != "command"@[0]);
    assert("metrics"@[0] != "command"@[0]);
    assert("metrics"@[0] != "pattern"@[0]);
    assert("events"@[0] != "format"@[0]);
    assert("source"@[0] != "format"@[0]);
    assert("source"@[0] != "events"@[0]);
    assert("p"@[0] != "d"@[0]);
    assert("f"@[0] != "d"@[0]);
    assert("f"@[0] != "p"@[0]);
    assert("m"@[0] != "d"@[0]);
    assert("m"@[0] != "p"@[0]);
    assert("m"@[0] != "f"@[0]);
    assert("mt"@[0] != "ev"@[0]);
    assert("meta"@[0] != "data"@[0]);
    assert("cmd"@[0] != "src"@[0]);
    assert("q"@[0] != "d"@[0]);
    assert("q"@[0] != "p"@[0]);
    assert("q"@[0] != "f"@[0]);
    assert("q"@[0] != "m"@[0]);
    let r = spec_expand_key(spec_shorten_key(k));
    if k == "data"@ {
        assert(r == k);
    } else if k == "pattern"@ {
        assert(r == k);
    } else if k == "format"@ {
        assert(r == k);
    } else if k == "events"@ {
        assert(r == k);
    } else if k == "metrics"@ {
        assert(r == k);
    } else if k == "meta"@ {
        assert(k != "data"@);
        assert(k != "metrics"@);
        assert(spec_shorten_key(k) == "m"@);
    } else if k == "source"@ {
        assert(r == k);
    } else if k == "cmd"@ {
        assert(r == k);
    } else if k == "q"@ {
        assert(r == k);
    } else {
        assert(spec_shorten_key(k) == k);
    }
}

} // verus!
