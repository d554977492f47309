//! LiminalDB's verified core: the query language, the write-ahead log
//! format, access control, view scheduling, the synchronisation log, the
//! bridge protocol's readers, the stream hub's register, intent reading and
//! the co-firing graph, each with its contract proved by Verus.
use vstd::prelude::*;

pub mod assoc;
pub mod text;
pub mod types;
pub mod threshold;
pub mod views;
pub mod lql;
pub mod wal;
pub mod security;
pub mod resonant;
pub mod protocol;
pub mod hub;
pub mod journal;
pub mod seeds;
pub mod mirror;
pub mod sal;
pub mod nlu;
pub mod field;
pub mod synchrony;
pub mod window;
pub mod usage;
pub mod keyed;
pub mod replay;
pub mod commands;
pub mod routes;
pub mod life;
pub mod console;
pub mod summaries;
