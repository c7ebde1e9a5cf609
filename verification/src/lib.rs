//! A partitioned, memory-mapped key-value store for document-shaped
//! data, optimized for reads: a primary key plus a set of typed fields,
//! with writes arriving through an ordered event log.
//!
//! The engine is sharded sixteen ways by the hash of the primary key.
//! Each shard holds an append-only value arena, an in-memory offset
//! table, and an append-only operation log that is the table's source of
//! truth: opening a shard replays its log. A schema registry maps field
//! names to stable ids, a header file carries the base-index epoch, and
//! an offset file carries the event log's consumed position. All on-disk
//! state is held and verified as byte images; the surrounding process
//! maps them to real files.

use vstd::prelude::*;

pub mod codec;
pub mod error;
pub mod field;
pub mod maps;
pub mod oplog;
pub mod segment;
pub mod stats;
pub mod document;
pub mod schema_store;
pub mod header_store;
pub mod offset_store;
pub mod config;
pub mod paths;
pub mod hashing;
pub mod ckv;
pub mod testing;
pub mod processor;
pub mod consumer;

verus! {

/// A small liveness probe for language bindings.
pub fn hello_world() -> (r: String)
    ensures
        r@ == "Hello World"@,
{
    let r = String::from_str("Hello World");
    proof {
        reveal_strlit("Hello World");
    }
    r
}

} // verus!
