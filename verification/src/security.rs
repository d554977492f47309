//! Access control: roles, API keys bound to namespaces, namespace quotas,
//! and the authorization check.
use vstd::prelude::*;

use crate::assoc::{assoc_map, has_key, lemma_assoc_at, lemma_assoc_push, lemma_assoc_update, unique_keys};
use crate::text::str_eq;

verus! {

/// Role-based access levels: an admin may do what a writer may, a writer
/// what a reader may.
#[derive(Debug, Clone, Copy, PartialEq, Eq, Structural)]
pub enum Role {
    Admin,
    Writer,
    Reader,
}

pub open spec fn role_rank(r: Role) -> int {
    match r {
        Role::Admin => 2,
        Role::Writer => 1,
        Role::Reader => 0,
    }
}

impl Role {
    /// `self` provides at least the capabilities of `required`.
    pub open spec fn spec_permits(self, required: Role) -> bool {
        role_rank(self) >= role_rank(required)
    }

    /// Whether the role provides at least the capabilities of `required`.
    pub fn permits(self, required: Role) -> (r: bool)
        ensures
            r == self.spec_permits(required),
    {
        match (self, required) {
            (Role::Admin, _) => true,
            (Role::Writer, Role::Writer) => true,
            (Role::Writer, Role::Reader) => true,
            (Role::Reader, Role::Reader) => true,
            _ => false,
        }
    }

    /// The role's name, as `Debug` writes it.
    pub fn name(self) -> (s: &'static str)
        ensures
            s@ == role_name(self),
    {
        match self {
            Role::Admin => "Admin",
            Role::Writer => "Writer",
            Role::Reader => "Reader",
        }
    }
}

pub open spec fn role_name(r: Role) -> Seq<char> {
    match r {
        Role::Admin => "Admin"@,
        Role::Writer => "Writer"@,
        Role::Reader => "Reader"@,
    }
}

/// The roles rank admin over writer over reader: only an admin is
/// permitted what an admin needs, a writer is permitted what writers and
/// readers need, and a reader only what readers need.
pub proof fn lemma_role_ladder(r: Role)
    ensures
        r.spec_permits(Role::Admin) <==> r == Role::Admin,
        r.spec_permits(Role::Writer) <==> (r == Role::Admin || r == Role::Writer),
        r.spec_permits(Role::Reader),
        Role::Reader.spec_permits(r) <==> r == Role::Reader,
        Role::Admin.spec_permits(r),
{
}

/// Every role permits itself; permission is transitive; an admin is
/// permitted everything; of two roles one always permits the other.
pub proof fn lemma_permits_is_a_total_order(a: Role, b: Role, c: Role)
    ensures
        a.spec_permits(a),
        a.spec_permits(b) && b.spec_permits(c) ==> a.spec_permits(c),
        Role::Admin.spec_permits(a),
        a.spec_permits(b) || b.spec_permits(a),
        a.spec_permits(b) && b.spec_permits(a) ==> a == b,
{
}

/// Metadata of an API key.
#[derive(Debug, Clone, PartialEq, Eq)]
pub struct ApiKey {
    pub id: String,
    pub secret_hash: [u8; 32],
    pub role: Role,
    pub ns: String,
    pub created_ms: u64,
    pub disabled: bool,
}

pub struct KeyView {
    pub id: Seq<char>,
    pub secret_hash: Seq<u8>,
    pub role: Role,
    pub ns: Seq<char>,
    pub created_ms: u64,
    pub disabled: bool,
}

impl View for ApiKey {
    type V = KeyView;

    open spec fn view(&self) -> KeyView {
        KeyView {
            id: self.id@,
            secret_hash: self.secret_hash@,
            role: self.role,
            ns: self.ns@,
            created_ms: self.created_ms,
            disabled: self.disabled,
        }
    }
}

impl ApiKey {
    /// A new, enabled key.
    pub fn new(id: &str, secret_hash: [u8; 32], role: Role, ns: &str, created_ms: u64) -> (k: ApiKey)
        ensures
            k@ == (KeyView {
                id: id@,
                secret_hash: secret_hash@,
                role,
                ns: ns@,
                created_ms,
                disabled: false,
            }),
    {
        ApiKey {
            id: id.to_string(),
            secret_hash,
            role,
            ns: ns.to_string(),
            created_ms,
            disabled: false,
        }
    }
}

/// Namespace quotas: rate limits and resource bounds.
#[derive(Debug, Clone, Copy, PartialEq, Eq, Structural)]
pub struct Quotas {
    pub rps: u32,
    pub burst: u32,
    pub max_cells: u32,
    pub max_views: u32,
}

pub open spec fn zero_quotas() -> Quotas {
    Quotas { rps: 0, burst: 0, max_cells: 0, max_views: 0 }
}

impl Default for Quotas {
    fn default() -> (q: Quotas)
        ensures
            q == zero_quotas(),
    {
        Quotas { rps: 0, burst: 0, max_cells: 0, max_views: 0 }
    }
}

/// Why an access check failed.
#[derive(Debug, Clone, PartialEq, Eq)]
pub enum AccessError {
    UnknownKey(String),
    KeyDisabled(String),
    KeyExists(String),
    UnknownNamespace(String),
    WrongNamespace { key: String, key_ns: String, required_ns: String },
    Forbidden { key: String, role: Role, required: Role },
}

pub enum AccessErrorView {
    UnknownKey(Seq<char>),
    KeyDisabled(Seq<char>),
    KeyExists(Seq<char>),
    UnknownNamespace(Seq<char>),
    WrongNamespace { key: Seq<char>, key_ns: Seq<char>, required_ns: Seq<char> },
    Forbidden { key: Seq<char>, role: Role, required: Role },
}

impl View for AccessError {
    type V = AccessErrorView;

    open spec fn view(&self) -> AccessErrorView {
        match self {
            AccessError::UnknownKey(k) => AccessErrorView::UnknownKey(k@),
            AccessError::KeyDisabled(k) => AccessErrorView::KeyDisabled(k@),
            AccessError::KeyExists(k) => AccessErrorView::KeyExists(k@),
            AccessError::UnknownNamespace(n) => AccessErrorView::UnknownNamespace(n@),
            AccessError::WrongNamespace { key, key_ns, required_ns } => AccessErrorView::WrongNamespace {
                key: key@,
                key_ns: key_ns@,
                required_ns: required_ns@,
            },
            AccessError::Forbidden { key, role, required } => AccessErrorView::Forbidden {
                key: key@,
                role: *role,
                required: *required,
            },
        }
    }
}

/// The text of an access error, as its `Display` writes it.
pub open spec fn access_error_message(e: AccessErrorView) -> Seq<char> {
    match e {
        AccessErrorView::UnknownKey(k) => "unknown key: "@ + k,
        AccessErrorView::KeyDisabled(k) => "key disabled: "@ + k,
        AccessErrorView::KeyExists(k) => "key already exists: "@ + k,
        AccessErrorView::UnknownNamespace(n) => "namespace not registered: "@ + n,
        AccessErrorView::WrongNamespace { key, key_ns, required_ns } => "namespace mismatch for key "@
            + key + ": key namespace is "@ + key_ns + ", required "@ + required_ns,
        AccessErrorView::Forbidden { key, role, required } => "forbidden: key "@ + key
            + " has role "@ + role_name(role) + " but "@ + role_name(required) + " is required"@,
    }
}

impl AccessError {
    /// The error's text.
    pub fn to_string(&self) -> (s: String)
        ensures
            s@ == access_error_message(self@),
    {
        match self {
            AccessError::UnknownKey(k) => {
                let mut s = "unknown key: ".to_string();
                s.append(k.as_str());
                s
            },
            AccessError::KeyDisabled(k) => {
                let mut s = "key disabled: ".to_string();
                s.append(k.as_str());
                s
            },
            AccessError::KeyExists(k) => {
                let mut s = "key already exists: ".to_string();
                s.append(k.as_str());
                s
            },
            AccessError::UnknownNamespace(n) => {
                let mut s = "namespace not registered: ".to_string();
                s.append(n.as_str());
                s
            },
            AccessError::WrongNamespace { key, key_ns, required_ns } => {
                let mut s = "namespace mismatch for key ".to_string();
                s.append(key.as_str());
                s.append(": key namespace is ");
                s.append(key_ns.as_str());
                s.append(", required ");
                s.append(required_ns.as_str());
                s
            },
            AccessError::Forbidden { key, role, required } => {
                let mut s = "forbidden: key ".to_string();
                s.append(key.as_str());
                s.append(" has role ");
                s.append(role.name());
                s.append(" but ");
                s.append(required.name());
                s.append(" is required");
                s
            },
        }
    }
}

/// The abstract state of [`Access`]: keys by id, quotas by namespace.
pub struct AccessView {
    pub keys: Map<Seq<char>, KeyView>,
    pub quotas: Map<Seq<char>, Quotas>,
}

/// Combined access state for namespaces and API keys.
pub struct Access {
    keys: Vec<ApiKey>,
    ns_quotas: Vec<(String, Quotas)>,
}

impl Access {
    pub closed spec fn key_pairs(&self) -> Seq<(Seq<char>, KeyView)> {
        Seq::new(self.keys@.len(), |i: int| (self.keys@[i].id@, self.keys@[i]@))
    }

    pub closed spec fn quota_pairs(&self) -> Seq<(Seq<char>, Quotas)> {
        Seq::new(self.ns_quotas@.len(), |i: int| (self.ns_quotas@[i].0@, self.ns_quotas@[i].1))
    }

    /// No key id and no namespace is held twice.
    pub closed spec fn wf(&self) -> bool {
        unique_keys(self.key_pairs()) && unique_keys(self.quota_pairs())
    }

    pub closed spec fn view(&self) -> AccessView {
        AccessView { keys: assoc_map(self.key_pairs()), quotas: assoc_map(self.quota_pairs()) }
    }

    /// No keys and no namespaces.
    pub fn new() -> (a: Access)
        ensures
            a.wf(),
            a.view().keys == Map::<Seq<char>, KeyView>::empty(),
            a.view().quotas == Map::<Seq<char>, Quotas>::empty(),
    {
        let a = Access { keys: Vec::new(), ns_quotas: Vec::new() };
        assert(a.view().keys =~= Map::<Seq<char>, KeyView>::empty());
        assert(a.view().quotas =~= Map::<Seq<char>, Quotas>::empty());
        a
    }

    fn find_key(&self, id: &str) -> (r: Option<usize>)
        ensures
            match r {
                Some(i) => i < self.keys@.len() && self.key_pairs()[i as int].0 == id@,
                None => !has_key(self.key_pairs(), id@),
            },
    {
        let mut i: usize = 0;
        while i < self.keys.len()
            invariant
                i <= self.keys@.len(),
                forall|j: int| 0 <= j < i ==> #[trigger] self.key_pairs()[j].0 != id@,
            decreases self.keys.len() - i,
        {
            if str_eq(self.keys[i].id.as_str(), id) {
                return Some(i);
            }
            i += 1;
        }
        None
    }

    fn find_ns(&self, ns: &str) -> (r: Option<usize>)
        ensures
            match r {
                Some(i) => i < self.ns_quotas@.len() && self.quota_pairs()[i as int].0 == ns@,
                None => !has_key(self.quota_pairs(), ns@),
            },
    {
        let mut i: usize = 0;
        while i < self.ns_quotas.len()
            invariant
                i <= self.ns_quotas@.len(),
                forall|j: int| 0 <= j < i ==> #[trigger] self.quota_pairs()[j].0 != ns@,
            decreases self.ns_quotas.len() - i,
        {
            if str_eq(self.ns_quotas[i].0.as_str(), ns) {
                return Some(i);
            }
            i += 1;
        }
        None
    }

    /// Registers a namespace with zero quotas, unless it is registered.
    pub fn register_namespace(&mut self, ns: &str)
        requires
            old(self).wf(),
        ensures
            final(self).wf(),
            final(self).view().keys == old(self).view().keys,
            final(self).view().quotas == if old(self).view().quotas.contains_key(ns@) {
                old(self).view().quotas
            } else {
                old(self).view().quotas.insert(ns@, zero_quotas())
            },
    {
        match self.find_ns(ns) {
            Some(i) => {
                proof {
                    lemma_assoc_at(self.quota_pairs(), i as int);
                }
            },
            None => {
                let ghost before = self.quota_pairs();
                self.ns_quotas.push((ns.to_string(), Quotas::default()));
                proof {
                    assert(self.quota_pairs() =~= before.push((ns@, zero_quotas())));
                    lemma_assoc_push(before, ns@, zero_quotas());
                }
            },
        }
    }

    /// Sets the quotas of a namespace, registering it if need be.
    pub fn set_quota(&mut self, ns: &str, quota: Quotas)
        requires
            old(self).wf(),
        ensures
            final(self).wf(),
            final(self).view().keys == old(self).view().keys,
            final(self).view().quotas == old(self).view().quotas.insert(ns@, quota),
    {
        match self.find_ns(ns) {
            Some(i) => {
                let ghost before = self.quota_pairs();
                let name = self.ns_quotas[i].0.clone();
                self.ns_quotas.set(i, (name, quota));
                proof {
                    assert(self.quota_pairs() =~= before.update(i as int, (before[i as int].0, quota)));
                    lemma_assoc_update(before, i as int, quota);
                }
            },
            None => {
                let ghost before = self.quota_pairs();
                self.ns_quotas.push((ns.to_string(), quota));
                proof {
                    assert(self.quota_pairs() =~= before.push((ns@, quota)));
                    lemma_assoc_push(before, ns@, quota);
                }
            },
        }
    }

    /// Adds a key to a registered namespace. Refused when the id is taken or
    /// the namespace is unknown; then nothing changes.
    pub fn add_key(&mut self, key: ApiKey) -> (r: Result<(), AccessError>)
        requires
            old(self).wf(),
        ensures
            final(self).wf(),
            final(self).view().quotas == old(self).view().quotas,
            match r {
                Ok(()) => {
                    &&& !old(self).view().keys.contains_key(key.id@)
                    &&& old(self).view().quotas.contains_key(key.ns@)
                    &&& final(self).view().keys == old(self).view().keys.insert(key.id@, key@)
                },
                Err(e) => {
                    &&& final(self).view().keys == old(self).view().keys
                    &&& if old(self).view().keys.contains_key(key.id@) {
                        e@ == AccessErrorView::KeyExists(key.id@)
                    } else {
                        !old(self).view().quotas.contains_key(key.ns@) && e@
                            == AccessErrorView::UnknownNamespace(key.ns@)
                    }
                },
            },
    {
        if let Some(i) = self.find_key(key.id.as_str()) {
            proof {
                lemma_assoc_at(self.key_pairs(), i as int);
            }
            return Err(AccessError::KeyExists(key.id));
        }
        if let Some(i) = self.find_ns(key.ns.as_str()) {
            proof {
                lemma_assoc_at(self.quota_pairs(), i as int);
            }
        } else {
            return Err(AccessError::UnknownNamespace(key.ns));
        }
        let ghost before = self.key_pairs();
        let ghost kv = key@;
        self.keys.push(key);
        proof {
            assert(self.key_pairs() =~= before.push((kv.id, kv)));
            lemma_assoc_push(before, kv.id, kv);
        }
        Ok(())
    }

    /// Disables a key; refused, with nothing changed, when it is unknown.
    pub fn disable_key(&mut self, key_id: &str) -> (r: Result<(), AccessError>)
        requires
            old(self).wf(),
        ensures
            final(self).wf(),
            final(self).view().quotas == old(self).view().quotas,
            match r {
                Ok(()) => {
                    &&& old(self).view().keys.contains_key(key_id@)
                    &&& final(self).view().keys == old(self).view().keys.insert(
                        key_id@,
                        KeyView { disabled: true, ..old(self).view().keys[key_id@] },
                    )
                },
                Err(e) => {
                    &&& !old(self).view().keys.contains_key(key_id@)
                    &&& final(self).view().keys == old(self).view().keys
                    &&& e@ == AccessErrorView::UnknownKey(key_id@)
                },
            },
    {
        match self.find_key(key_id) {
            Some(i) => {
                let ghost before = self.key_pairs();
                proof {
                    lemma_assoc_at(before, i as int);
                }
                let old_key = &self.keys[i];
                let updated = ApiKey {
                    id: old_key.id.clone(),
                    secret_hash: old_key.secret_hash,
                    role: old_key.role,
                    ns: old_key.ns.clone(),
                    created_ms: old_key.created_ms,
                    disabled: true,
                };
                let ghost uv = updated@;
                self.keys.set(i, updated);
                proof {
                    assert(self.key_pairs() =~= before.update(i as int, (before[i as int].0, uv)));
                    lemma_assoc_update(before, i as int, uv);
                }
                Ok(())
            },
            None => Err(AccessError::UnknownKey(key_id.to_string())),
        }
    }

    /// Checks that `key_id` may act with role `required` in namespace `ns`;
    /// on success returns the key's role.
    pub fn authorize(&self, key_id: &str, required: Role, ns: &str) -> (r: Result<Role, AccessError>)
        requires
            self.wf(),
        ensures
            match (r, spec_authorize(self.view(), key_id@, required, ns@)) {
                (Ok(a), Ok(b)) => a == b,
                (Err(e), Err(f)) => e@ == f,
                _ => false,
            },
    {
        let i = match self.find_key(key_id) {
            Some(i) => i,
            None => {
                return Err(AccessError::UnknownKey(key_id.to_string()));
            },
        };
        proof {
            lemma_assoc_at(self.key_pairs(), i as int);
        }
        let key = &self.keys[i];
        if key.disabled {
            return Err(AccessError::KeyDisabled(key_id.to_string()));
        }
        if !str_eq(key.ns.as_str(), ns) {
            return Err(
                AccessError::WrongNamespace {
                    key: key_id.to_string(),
                    key_ns: key.ns.clone(),
                    required_ns: ns.to_string(),
                },
            );
        }
        if !key.role.permits(required) {
            return Err(AccessError::Forbidden { key: key_id.to_string(), role: key.role, required });
        }
        Ok(key.role)
    }
}

/// The outcome of an authorization check against access state `v`.
pub open spec fn spec_authorize(v: AccessView, id: Seq<char>, required: Role, ns: Seq<char>) -> Result<
    Role,
    AccessErrorView,
> {
    if !v.keys.contains_key(id) {
        Err(AccessErrorView::UnknownKey(id))
    } else {
        let k = v.keys[id];
        if k.disabled {
            Err(AccessErrorView::KeyDisabled(id))
        } else if k.ns != ns {
            Err(AccessErrorView::WrongNamespace { key: id, key_ns: k.ns, required_ns: ns })
        } else if !k.role.spec_permits(required) {
            Err(AccessErrorView::Forbidden { key: id, role: k.role, required })
        } else {
            Ok(k.role)
        }
    }
}

/// A granted check always returns the key's own role, and that role
/// permits what was asked.
pub proof fn lemma_granted_role_permits(v: AccessView, id: Seq<char>, required: Role, ns: Seq<char>)
    ensures
        spec_authorize(v, id, required, ns) matches Ok(r) ==> {
            &&& v.keys.contains_key(id)
            &&& !v.keys[id].disabled
            &&& v.keys[id].ns == ns
            &&& r == v.keys[id].role
            &&& r.spec_permits(required)
        },
{
}

/// A key that was just added, enabled, is granted in its own namespace
/// exactly the roles its role permits.
pub proof fn lemma_added_key_is_authorized(v: AccessView, key: KeyView, required: Role)
    requires
        !key.disabled,
    ensures
        ({
            let w = AccessView { keys: v.keys.insert(key.id, key), quotas: v.quotas };
            &&& key.role.spec_permits(required) ==> spec_authorize(w, key.id, required, key.ns) == Ok::<
                Role,
                AccessErrorView,
            >(key.role)
            &&& !key.role.spec_permits(required) ==> spec_authorize(w, key.id, required, key.ns)
                is Err
        }),
{
}

/// Once a key is disabled every check with it is refused as disabled.
pub proof fn lemma_disabled_key_is_refused(v: AccessView, id: Seq<char>, required: Role, ns: Seq<char>)
    requires
        v.keys.contains_key(id),
    ensures
        ({
            let w = AccessView {
                keys: v.keys.insert(id, KeyView { disabled: true, ..v.keys[id] }),
                quotas: v.quotas,
            };
            spec_authorize(w, id, required, ns) == Err::<Role, AccessErrorView>(
                AccessErrorView::KeyDisabled(id),
            )
        }),
{
}

// ---------------------------------------------------------------------------
// Secrets
// ---------------------------------------------------------------------------

/// What `blake3::hash` returns for `data`: its 32-byte BLAKE3 digest.
pub uninterp spec fn blake3_of(data: Seq<u8>) -> Seq<u8>;

/// Hashes an API secret with BLAKE3 (`blake3::hash`). The contract says
/// only that the digest is a function of the secret's bytes.
#[verifier::external_body]
pub fn hash_secret(secret: &[u8]) -> (h: [u8; 32])
    ensures
        h@ == blake3_of(secret@),
{
    *blake3::hash(secret).as_bytes()
}

} // verus!
