//! The storage abstraction layer: what a storage backend offers the field.
use vstd::prelude::*;
use std::collections::BTreeMap;

verus! {

/// `anyhow::Error`, the error a storage backend reports, carried through
/// as an opaque value.
#[verifier::external_type_specification]
#[verifier::external_body]
pub struct ExAnyhowError(anyhow::Error);

/// How a backend is opened.
#[derive(Debug, Clone, Copy, PartialEq, Eq, Structural)]
pub struct SalOpts {
    /// Open the store read-only, where the backend supports it.
    pub read_only: bool,
    /// Create the namespace roots that do not exist yet.
    pub create_if_missing: bool,
}

impl Default for SalOpts {
    fn default() -> (o: SalOpts)
        ensures
            !o.read_only,
            !o.create_if_missing,
    {
        SalOpts { read_only: false, create_if_missing: false }
    }
}

/// A storage backend: namespaced key-value pairs and an append-only log.
/// Backends implement it; nothing here is promised of an implementation.
pub trait Sal: Send + Sync {
    /// The value under `key`, or `None` where there is none.
    fn kv_get(&self, ns: &str, key: &[u8]) -> Result<Option<Vec<u8>>, anyhow::Error>;

    /// Stores `val` under `key`, replacing what was there.
    fn kv_put(&self, ns: &str, key: &[u8], val: &[u8]) -> Result<(), anyhow::Error>;

    /// Removes `key`; a missing key is no error.
    fn kv_del(&self, ns: &str, key: &[u8]) -> Result<(), anyhow::Error>;

    /// At most `limit` pairs whose keys start with `prefix`.
    fn scan_prefix(&self, ns: &str, prefix: &[u8], limit: usize) -> Result<
        Vec<(Vec<u8>, Vec<u8>)>,
        anyhow::Error,
    >;

    /// Appends a record to the log and gives its offset.
    fn wal_append(&self, record: &[u8]) -> Result<u64, anyhow::Error>;

    /// At most `max` records from `offset` on, keyed by their offsets.
    fn wal_read(&self, offset: u64, max: u64) -> Result<BTreeMap<u64, Vec<u8>>, anyhow::Error>;

    /// Makes buffered state durable; a backend that buffers nothing
    /// succeeds at once.
    fn flush(&self) -> (r: Result<(), anyhow::Error>)
        default_ensures
            r is Ok,
    {
        Ok(())
    }
}

} // verus!
